//! Placement on monitors in physical pixels: which monitor a window belongs
//! to, where new windows appear, how a window is kept inside the work area,
//! and how a panel snaps to nearby edges.
use vstd::prelude::*;

use crate::text::{chars_eq, chars_of, dec_int, push_char, push_decimal_i64, push_str};

verus! {

/// `monitor_id`: the monitor's name (or `Monitor`) and its position.
pub open spec fn monitor_id_text(name: Option<Seq<char>>, x: int, y: int) -> Seq<char> {
    (match name {
        Some(n) => n,
        None => "Monitor"@,
    }) + seq!['@'] + dec_int(x) + seq![','] + dec_int(y)
}

/// The stable identifier of a monitor, `<name>@<x>,<y>`.
pub fn monitor_id(name: Option<&str>, x: i32, y: i32) -> (r: String)
    ensures
        r@ == monitor_id_text(
            match name {
                Some(n) => Some(n@),
                None => None,
            },
            x as int,
            y as int,
        ),
{
    let mut r = match name {
        Some(n) => n.to_owned(),
        None => "Monitor".to_owned(),
    };
    let ghost start = r@;
    push_char(&mut r, '@');
    push_decimal_i64(&mut r, x as i64);
    push_char(&mut r, ',');
    push_decimal_i64(&mut r, y as i64);
    assert(r@ =~= start + seq!['@'] + dec_int(x as int) + seq![','] + dec_int(y as int));
    r
}

/// A point in physical pixels.
#[derive(Clone, Copy, Debug, PartialEq, Eq, Structural)]
pub struct Point {
    pub x: i32,
    pub y: i32,
}

/// A rectangle in physical pixels: its top-left corner and its size.
#[derive(Clone, Copy, Debug, PartialEq, Eq, Structural)]
pub struct Area {
    pub x: i32,
    pub y: i32,
    pub width: u32,
    pub height: u32,
}

/// A size in physical pixels.
#[derive(Clone, Copy, Debug, PartialEq, Eq, Structural)]
pub struct Dimensions {
    pub width: u32,
    pub height: u32,
}

impl MonitorArea {
    /// The monitor's work area.
    pub fn work_area(&self) -> (r: Area)
        ensures
            r == (Area { x: self.x, y: self.y, width: self.width, height: self.height }),
    {
        Area { x: self.x, y: self.y, width: self.width, height: self.height }
    }
}

/// A monitor as the placement rules read it: its id and its work area.
pub struct MonitorArea {
    pub id: String,
    pub x: i32,
    pub y: i32,
    pub width: u32,
    pub height: u32,
}

pub open spec fn area_contains(m: MonitorArea, x: int, y: int) -> bool {
    m.x <= x < m.x + m.width && m.y <= y < m.y + m.height
}

/// The first monitor whose id is `saved`.
pub open spec fn first_with_id(ms: Seq<MonitorArea>, saved: Seq<char>) -> int {
    choose|i: int|
        0 <= i < ms.len() && ms[i].id@ == saved && forall|j: int|
            0 <= j < i ==> (#[trigger] ms[j]).id@ != saved
}

/// The first monitor whose work area holds `(x, y)`.
pub open spec fn first_containing(ms: Seq<MonitorArea>, x: int, y: int) -> int {
    choose|i: int|
        0 <= i < ms.len() && area_contains(ms[i], x, y) && forall|j: int|
            0 <= j < i ==> !area_contains(#[trigger] ms[j], x, y)
}

/// The monitor a window lives on: the one with the saved id, else the one
/// whose work area holds the window's position, else the first one.
pub open spec fn monitor_choice(saved: Seq<char>, x: int, y: int, ms: Seq<MonitorArea>) -> Option<
    int,
> {
    if exists|i: int| 0 <= i < ms.len() && (#[trigger] ms[i]).id@ == saved {
        Some(first_with_id(ms, saved))
    } else if exists|i: int| 0 <= i < ms.len() && area_contains(#[trigger] ms[i], x, y) {
        Some(first_containing(ms, x, y))
    } else if ms.len() > 0 {
        Some(0)
    } else {
        None
    }
}

pub fn monitor_for(saved_monitor_id: &str, x: i32, y: i32, monitors: &Vec<MonitorArea>) -> (r:
    Option<usize>)
    ensures
        r matches Some(i) ==> i < monitors@.len(),
        r == (match monitor_choice(saved_monitor_id@, x as int, y as int, monitors@) {
            Some(i) => Some(i as usize),
            None => None,
        }),
{
    let saved = chars_of(saved_monitor_id);
    let mut i: usize = 0;
    while i < monitors.len()
        invariant
            i <= monitors.len(),
            saved@ == saved_monitor_id@,
            forall|j: int| 0 <= j < i ==> (#[trigger] monitors@[j]).id@ != saved_monitor_id@,
        decreases monitors.len() - i,
    {
        let id = chars_of(monitors[i].id.as_str());
        if chars_eq(&id, &saved) {
            proof {
                let k = first_with_id(monitors@, saved_monitor_id@);
                assert(monitors@[i as int].id@ == saved_monitor_id@);
                if k < i {
                    assert(monitors@[k].id@ != saved_monitor_id@);
                }
                if i < k {
                    assert(monitors@[i as int].id@ != saved_monitor_id@);
                }
            }
            return Some(i);
        }
        i = i + 1;
    }
    let mut k: usize = 0;
    while k < monitors.len()
        invariant
            k <= monitors.len(),
            forall|j: int| 0 <= j < monitors.len() ==> (#[trigger] monitors@[j]).id@ != saved_monitor_id@,
            forall|j: int| 0 <= j < k ==> !area_contains(#[trigger] monitors@[j], x as int, y as int),
        decreases monitors.len() - k,
    {
        let m = &monitors[k];
        let right = m.x as i64 + m.width as i64;
        let bottom = m.y as i64 + m.height as i64;
        if x as i64 >= m.x as i64 && (x as i64) < right && y as i64 >= m.y as i64 && (y as i64)
            < bottom {
            proof {
                assert(area_contains(monitors@[k as int], x as int, y as int));
                let f = first_containing(monitors@, x as int, y as int);
                if f < k {
                    assert(!area_contains(monitors@[f], x as int, y as int));
                }
                if k < f {
                    assert(!area_contains(monitors@[k as int], x as int, y as int));
                }
            }
            return Some(k);
        }
        k = k + 1;
    }
    if monitors.len() > 0 {
        Some(0)
    } else {
        None
    }
}

/// Where the `index`-th new window appears: 42 pixels inside the work area,
/// cascading by 28 pixels and starting over every ten windows.
pub open spec fn placement(index: nat, area_x: int, area_y: int) -> (int, int) {
    let offset = (index % 10) * 28;
    (area_x + 42 + offset, area_y + 42 + offset)
}

pub fn default_placement(index: usize, area_x: i32, area_y: i32) -> (r: (i32, i32))
    requires
        placement(index as nat, area_x as int, area_y as int).0 <= i32::MAX,
        placement(index as nat, area_x as int, area_y as int).1 <= i32::MAX,
    ensures
        (r.0 as int, r.1 as int) == placement(index as nat, area_x as int, area_y as int),
{
    let offset = ((index % 10) as i32) * 28;
    (area_x + 42 + offset, area_y + 42 + offset)
}

/// A position kept inside `[start + margin, start + length - size - margin]`;
/// when the window is larger than the area it sticks to the low edge. The
/// result is stored as an `i32`, cut to 32 bits as `as i32` does.
pub open spec fn clamped_position(pos: int, start: int, length: int, size: int, margin: int) -> int {
    let low = start + margin;
    let high = if start + length - size - margin > low {
        start + length - size - margin
    } else {
        low
    };
    if pos < low {
        low
    } else if pos > high {
        high
    } else {
        pos
    }
}

/// A clamped window starts at least `margin` inside the area; when the
/// area can hold it with a margin on both sides it also ends `margin`
/// inside; a position already inside is kept; clamping twice changes
/// nothing more.
pub proof fn lemma_clamp_keeps_window_inside(pos: int, start: int, length: int, size: int, margin: int)
    ensures
        ({
            let c = clamped_position(pos, start, length, size, margin);
            &&& c >= start + margin
            &&& length >= size + 2 * margin ==> c + size + margin <= start + length
            &&& start + margin <= pos && pos + size + margin <= start + length ==> c == pos
            &&& clamped_position(c, start, length, size, margin) == c
        }),
{
}

pub fn clamp_position(pos: i32, start: i32, length: u32, size: i64, margin: i32) -> (r: i32)
    requires
        0 <= margin,
        0 <= size <= u32::MAX,
        start + margin <= i32::MAX,
    ensures
        r == clamped_position(pos as int, start as int, length as int, size as int, margin as int) as i32,
{
    let low = start as i64 + margin as i64;
    let candidate = start as i64 + length as i64 - size - margin as i64;
    let high = if candidate > low {
        candidate
    } else {
        low
    };
    let p = pos as i64;
    let c = if p < low {
        low
    } else if p > high {
        high
    } else {
        p
    };
    c as i32
}

/// `|a - b|`.
pub open spec fn distance(a: int, b: int) -> int {
    if a >= b {
        a - b
    } else {
        b - a
    }
}

/// The snapped coordinate: the candidate nearest to `value` among those
/// within `threshold`, the first one on a tie; `None` when none is near.
pub open spec fn is_best_candidate(value: int, cs: Seq<i32>, threshold: int, i: int) -> bool {
    &&& 0 <= i < cs.len()
    &&& distance(cs[i] as int, value) <= threshold
    &&& forall|j: int|
        0 <= j < cs.len() && distance(cs[j] as int, value) <= threshold ==> distance(
            cs[i] as int,
            value,
        ) <= distance(#[trigger] cs[j] as int, value)
    &&& forall|j: int|
        0 <= j < i && distance(cs[j] as int, value) <= threshold ==> distance(
            cs[i] as int,
            value,
        ) < distance(#[trigger] cs[j] as int, value)
}

pub fn best_candidate(value: i32, candidates: &[i32], threshold: i32) -> (r: Option<i32>)
    requires
        forall|j: int|
            0 <= j < candidates@.len() ==> i32::MIN < #[trigger] candidates@[j] - value
                <= i32::MAX,
    ensures
        r is None <==> forall|j: int|
            0 <= j < candidates@.len() ==> distance(#[trigger] candidates@[j] as int, value as int)
                > threshold,
        r matches Some(x) ==> exists|i: int|
            is_best_candidate(value as int, candidates@, threshold as int, i) && candidates@[i]
                == x,
{
    let mut best: Option<usize> = None;
    let mut best_distance: i32 = 0;
    let mut i: usize = 0;
    while i < candidates.len()
        invariant
            i <= candidates@.len(),
            forall|j: int|
                0 <= j < candidates@.len() ==> i32::MIN < #[trigger] candidates@[j] - value
                    <= i32::MAX,
            best is None ==> forall|j: int|
                0 <= j < i ==> distance(#[trigger] candidates@[j] as int, value as int)
                    > threshold,
            best matches Some(b) ==> {
                &&& b < i
                &&& best_distance == distance(candidates@[b as int] as int, value as int)
                &&& best_distance <= threshold
                &&& forall|j: int|
                    0 <= j < i && distance(candidates@[j] as int, value as int) <= threshold
                        ==> best_distance <= distance(#[trigger] candidates@[j] as int, value as int)
                &&& forall|j: int|
                    0 <= j < b && distance(candidates@[j] as int, value as int) <= threshold
                        ==> best_distance < distance(#[trigger] candidates@[j] as int, value as int)
            },
        decreases candidates@.len() - i,
    {
        let c = candidates[i];
        let diff = c - value;
        let d = if diff < 0 {
            -diff
        } else {
            diff
        };
        if d <= threshold {
            match best {
                None => {
                    best = Some(i);
                    best_distance = d;
                },
                Some(_) => {
                    if d < best_distance {
                        best = Some(i);
                        best_distance = d;
                    }
                },
            }
        }
        i = i + 1;
    }
    match best {
        None => None,
        Some(b) => {
            assert(is_best_candidate(value as int, candidates@, threshold as int, b as int));
            Some(candidates[b])
        },
    }
}

} // verus!

verus! {

/// A panel as the snapping rule reads it, sizes in physical pixels.
pub struct PanelSpot {
    pub id: String,
    pub hidden: bool,
    pub monitor_id: String,
    pub x: i32,
    pub y: i32,
    pub width: i32,
    pub height: i32,
}

/// Whether `other` attracts `panel`: another visible panel on monitor `target`.
pub open spec fn attracts(other: PanelSpot, panel: PanelSpot, target: Seq<char>) -> bool {
    other.id@ != panel.id@ && !other.hidden && other.monitor_id@ == target
}

/// Horizontal snap targets: the work area's edges (flush and with the
/// margin) and the edges of every attracting panel (aligned and adjacent).
pub open spec fn x_candidates(
    panel: PanelSpot,
    others: Seq<PanelSpot>,
    target: Seq<char>,
    area: MonitorArea,
    margin: int,
) -> Seq<int>
    decreases others.len(),
{
    if others.len() == 0 {
        let right = area.x + area.width;
        seq![area.x as int, area.x + margin, right - panel.width, right - panel.width - margin]
    } else {
        let prev = x_candidates(panel, others.drop_last(), target, area, margin);
        let o = others.last();
        if attracts(o, panel, target) {
            prev + seq![o.x as int, o.x + o.width - panel.width, o.x + o.width, o.x - panel.width]
        } else {
            prev
        }
    }
}

/// Vertical snap targets, as `x_candidates` for the other axis.
pub open spec fn y_candidates(
    panel: PanelSpot,
    others: Seq<PanelSpot>,
    target: Seq<char>,
    area: MonitorArea,
    margin: int,
) -> Seq<int>
    decreases others.len(),
{
    if others.len() == 0 {
        let bottom = area.y + area.height;
        seq![area.y as int, area.y + margin, bottom - panel.height, bottom - panel.height - margin]
    } else {
        let prev = y_candidates(panel, others.drop_last(), target, area, margin);
        let o = others.last();
        if attracts(o, panel, target) {
            prev + seq![o.y as int, o.y + o.height - panel.height, o.y + o.height, o.y - panel.height]
        } else {
            prev
        }
    }
}

/// The horizontal snap targets are the work area's two edges, each flush and
/// with the margin, and the four edges of every attracting panel (aligned
/// with the panel's own edges and adjacent to them); nothing else.
pub proof fn lemma_x_targets(
    panel: PanelSpot,
    others: Seq<PanelSpot>,
    target: Seq<char>,
    area: MonitorArea,
    margin: int,
)
    ensures
        ({
            let cs = x_candidates(panel, others, target, area, margin);
            let end = area.x + area.width;
            &&& cs.contains(area.x as int)
            &&& cs.contains(area.x + margin)
            &&& cs.contains(end - panel.width)
            &&& cs.contains(end - panel.width - margin)
            &&& forall|k: int|
                0 <= k < others.len() && attracts(#[trigger] others[k], panel, target) ==> {
                    &&& cs.contains(others[k].x as int)
                    &&& cs.contains(others[k].x + others[k].width - panel.width)
                    &&& cs.contains(others[k].x + others[k].width)
                    &&& cs.contains(others[k].x - panel.width)
                }
            &&& forall|j: int|
                0 <= j < cs.len() ==> {
                    ||| #[trigger] cs[j] == area.x as int
                    ||| cs[j] == area.x + margin
                    ||| cs[j] == end - panel.width
                    ||| cs[j] == end - panel.width - margin
                    ||| exists|k: int|
                        0 <= k < others.len() && attracts(others[k], panel, target) && (cs[j]
                            == others[k].x as int || cs[j] == others[k].x + others[k].width
                            - panel.width || cs[j] == others[k].x + others[k].width || cs[j]
                            == others[k].x - panel.width)
                }
        }),
    decreases others.len(),
{
    let cs = x_candidates(panel, others, target, area, margin);
    let end = area.x + area.width;
    if others.len() == 0 {
        assert(cs[0] == area.x as int);
        assert(cs[1] == area.x + margin);
        assert(cs[2] == end - panel.width);
        assert(cs[3] == end - panel.width - margin);
    } else {
        let rest = others.drop_last();
        let o = others.last();
        lemma_x_targets(panel, rest, target, area, margin);
        let prev = x_candidates(panel, rest, target, area, margin);
        if attracts(o, panel, target) {
            let tail = seq![o.x as int, o.x + o.width - panel.width, o.x + o.width, o.x - panel.width];
            assert(cs == prev + tail);
            assert forall|x: int| prev.contains(x) implies cs.contains(x) by {
                let w = choose|w: int| 0 <= w < prev.len() && prev[w] == x;
                assert(cs[w] == x);
            }
            assert(cs[prev.len() as int] == o.x as int);
            assert(cs[prev.len() as int + 1] == o.x + o.width - panel.width);
            assert(cs[prev.len() as int + 2] == o.x + o.width);
            assert(cs[prev.len() as int + 3] == o.x - panel.width);
            assert forall|j: int| 0 <= j < cs.len() implies {
                ||| #[trigger] cs[j] == area.x as int
                ||| cs[j] == area.x + margin
                ||| cs[j] == end - panel.width
                ||| cs[j] == end - panel.width - margin
                ||| exists|k: int|
                    0 <= k < others.len() && attracts(others[k], panel, target) && (cs[j]
                        == others[k].x as int || cs[j] == others[k].x + others[k].width
                        - panel.width || cs[j] == others[k].x + others[k].width || cs[j]
                        == others[k].x - panel.width)
            } by {
                if j < prev.len() {
                    assert(cs[j] == prev[j]);
                    if exists|k: int|
                        0 <= k < rest.len() && attracts(rest[k], panel, target) && (prev[j]
                            == rest[k].x as int || prev[j] == rest[k].x + rest[k].width
                            - panel.width || prev[j] == rest[k].x + rest[k].width || prev[j]
                            == rest[k].x - panel.width) {
                        let k = choose|k: int|
                            0 <= k < rest.len() && attracts(rest[k], panel, target) && (prev[j]
                                == rest[k].x as int || prev[j] == rest[k].x + rest[k].width
                                - panel.width || prev[j] == rest[k].x + rest[k].width || prev[j]
                                == rest[k].x - panel.width);
                        assert(others[k] == rest[k]);
                    }
                } else {
                    assert(others[others.len() - 1] == o);
                }
            }
            assert forall|k: int|
                0 <= k < others.len() && attracts(#[trigger] others[k], panel, target) implies {
                &&& cs.contains(others[k].x as int)
                &&& cs.contains(others[k].x + others[k].width - panel.width)
                &&& cs.contains(others[k].x + others[k].width)
                &&& cs.contains(others[k].x - panel.width)
            } by {
                if k < rest.len() {
                    assert(others[k] == rest[k]);
                }
            }
        } else {
            assert(cs == prev);
            assert forall|j: int| 0 <= j < cs.len() implies {
                ||| #[trigger] cs[j] == area.x as int
                ||| cs[j] == area.x + margin
                ||| cs[j] == end - panel.width
                ||| cs[j] == end - panel.width - margin
                ||| exists|k: int|
                    0 <= k < others.len() && attracts(others[k], panel, target) && (cs[j]
                        == others[k].x as int || cs[j] == others[k].x + others[k].width
                        - panel.width || cs[j] == others[k].x + others[k].width || cs[j]
                        == others[k].x - panel.width)
            } by {
                if exists|k: int|
                    0 <= k < rest.len() && attracts(rest[k], panel, target) && (prev[j]
                        == rest[k].x as int || prev[j] == rest[k].x + rest[k].width
                        - panel.width || prev[j] == rest[k].x + rest[k].width || prev[j]
                        == rest[k].x - panel.width) {
                    let k = choose|k: int|
                        0 <= k < rest.len() && attracts(rest[k], panel, target) && (prev[j]
                            == rest[k].x as int || prev[j] == rest[k].x + rest[k].width
                            - panel.width || prev[j] == rest[k].x + rest[k].width || prev[j]
                            == rest[k].x - panel.width);
                    assert(others[k] == rest[k]);
                }
            }
            assert forall|k: int|
                0 <= k < others.len() && attracts(#[trigger] others[k], panel, target) implies {
                &&& cs.contains(others[k].x as int)
                &&& cs.contains(others[k].x + others[k].width - panel.width)
                &&& cs.contains(others[k].x + others[k].width)
                &&& cs.contains(others[k].x - panel.width)
            } by {
                assert(k != others.len() - 1);
                assert(others[k] == rest[k]);
            }
        }
    }
}

/// The vertical snap targets are the work area's two edges, each flush and
/// with the margin, and the four edges of every attracting panel (aligned
/// with the panel's own edges and adjacent to them); nothing else.
pub proof fn lemma_y_targets(
    panel: PanelSpot,
    others: Seq<PanelSpot>,
    target: Seq<char>,
    area: MonitorArea,
    margin: int,
)
    ensures
        ({
            let cs = y_candidates(panel, others, target, area, margin);
            let end = area.y + area.height;
            &&& cs.contains(area.y as int)
            &&& cs.contains(area.y + margin)
            &&& cs.contains(end - panel.height)
            &&& cs.contains(end - panel.height - margin)
            &&& forall|k: int|
                0 <= k < others.len() && attracts(#[trigger] others[k], panel, target) ==> {
                    &&& cs.contains(others[k].y as int)
                    &&& cs.contains(others[k].y + others[k].height - panel.height)
                    &&& cs.contains(others[k].y + others[k].height)
                    &&& cs.contains(others[k].y - panel.height)
                }
            &&& forall|j: int|
                0 <= j < cs.len() ==> {
                    ||| #[trigger] cs[j] == area.y as int
                    ||| cs[j] == area.y + margin
                    ||| cs[j] == end - panel.height
                    ||| cs[j] == end - panel.height - margin
                    ||| exists|k: int|
                        0 <= k < others.len() && attracts(others[k], panel, target) && (cs[j]
                            == others[k].y as int || cs[j] == others[k].y + others[k].height
                            - panel.height || cs[j] == others[k].y + others[k].height || cs[j]
                            == others[k].y - panel.height)
                }
        }),
    decreases others.len(),
{
    let cs = y_candidates(panel, others, target, area, margin);
    let end = area.y + area.height;
    if others.len() == 0 {
        assert(cs[0] == area.y as int);
        assert(cs[1] == area.y + margin);
        assert(cs[2] == end - panel.height);
        assert(cs[3] == end - panel.height - margin);
    } else {
        let rest = others.drop_last();
        let o = others.last();
        lemma_y_targets(panel, rest, target, area, margin);
        let prev = y_candidates(panel, rest, target, area, margin);
        if attracts(o, panel, target) {
            let tail = seq![o.y as int, o.y + o.height - panel.height, o.y + o.height, o.y - panel.height];
            assert(cs == prev + tail);
            assert forall|x: int| prev.contains(x) implies cs.contains(x) by {
                let w = choose|w: int| 0 <= w < prev.len() && prev[w] == x;
                assert(cs[w] == x);
            }
            assert(cs[prev.len() as int] == o.y as int);
            assert(cs[prev.len() as int + 1] == o.y + o.height - panel.height);
            assert(cs[prev.len() as int + 2] == o.y + o.height);
            assert(cs[prev.len() as int + 3] == o.y - panel.height);
            assert forall|j: int| 0 <= j < cs.len() implies {
                ||| #[trigger] cs[j] == area.y as int
                ||| cs[j] == area.y + margin
                ||| cs[j] == end - panel.height
                ||| cs[j] == end - panel.height - margin
                ||| exists|k: int|
                    0 <= k < others.len() && attracts(others[k], panel, target) && (cs[j]
                        == others[k].y as int || cs[j] == others[k].y + others[k].height
                        - panel.height || cs[j] == others[k].y + others[k].height || cs[j]
                        == others[k].y - panel.height)
            } by {
                if j < prev.len() {
                    assert(cs[j] == prev[j]);
                    if exists|k: int|
                        0 <= k < rest.len() && attracts(rest[k], panel, target) && (prev[j]
                            == rest[k].y as int || prev[j] == rest[k].y + rest[k].height
                            - panel.height || prev[j] == rest[k].y + rest[k].height || prev[j]
                            == rest[k].y - panel.height) {
                        let k = choose|k: int|
                            0 <= k < rest.len() && attracts(rest[k], panel, target) && (prev[j]
                                == rest[k].y as int || prev[j] == rest[k].y + rest[k].height
                                - panel.height || prev[j] == rest[k].y + rest[k].height || prev[j]
                                == rest[k].y - panel.height);
                        assert(others[k] == rest[k]);
                    }
                } else {
                    assert(others[others.len() - 1] == o);
                }
            }
            assert forall|k: int|
                0 <= k < others.len() && attracts(#[trigger] others[k], panel, target) implies {
                &&& cs.contains(others[k].y as int)
                &&& cs.contains(others[k].y + others[k].height - panel.height)
                &&& cs.contains(others[k].y + others[k].height)
                &&& cs.contains(others[k].y - panel.height)
            } by {
                if k < rest.len() {
                    assert(others[k] == rest[k]);
                }
            }
        } else {
            assert(cs == prev);
            assert forall|j: int| 0 <= j < cs.len() implies {
                ||| #[trigger] cs[j] == area.y as int
                ||| cs[j] == area.y + margin
                ||| cs[j] == end - panel.height
                ||| cs[j] == end - panel.height - margin
                ||| exists|k: int|
                    0 <= k < others.len() && attracts(others[k], panel, target) && (cs[j]
                        == others[k].y as int || cs[j] == others[k].y + others[k].height
                        - panel.height || cs[j] == others[k].y + others[k].height || cs[j]
                        == others[k].y - panel.height)
            } by {
                if exists|k: int|
                    0 <= k < rest.len() && attracts(rest[k], panel, target) && (prev[j]
                        == rest[k].y as int || prev[j] == rest[k].y + rest[k].height
                        - panel.height || prev[j] == rest[k].y + rest[k].height || prev[j]
                        == rest[k].y - panel.height) {
                    let k = choose|k: int|
                        0 <= k < rest.len() && attracts(rest[k], panel, target) && (prev[j]
                            == rest[k].y as int || prev[j] == rest[k].y + rest[k].height
                            - panel.height || prev[j] == rest[k].y + rest[k].height || prev[j]
                            == rest[k].y - panel.height);
                    assert(others[k] == rest[k]);
                }
            }
            assert forall|k: int|
                0 <= k < others.len() && attracts(#[trigger] others[k], panel, target) implies {
                &&& cs.contains(others[k].y as int)
                &&& cs.contains(others[k].y + others[k].height - panel.height)
                &&& cs.contains(others[k].y + others[k].height)
                &&& cs.contains(others[k].y - panel.height)
            } by {
                assert(k != others.len() - 1);
                assert(others[k] == rest[k]);
            }
        }
    }
}

pub open spec fn fits_i32(v: int) -> bool {
    i32::MIN <= v <= i32::MAX
}

/// Every candidate, and its distance from `value`, is a 32-bit integer.
pub open spec fn snap_in_range(cs: Seq<int>, value: int) -> bool {
    forall|j: int| 0 <= j < cs.len() ==> fits_i32(#[trigger] cs[j]) && i32::MIN < cs[j] - value
        <= i32::MAX
}

pub open spec fn as_i32_seq(cs: Seq<int>) -> Seq<i32> {
    cs.map_values(|v: int| v as i32)
}

fn push4(v: &mut Vec<i32>, a: i64, b: i64, c: i64, d: i64)
    requires
        fits_i32(a as int),
        fits_i32(b as int),
        fits_i32(c as int),
        fits_i32(d as int),
    ensures
        final(v)@ == old(v)@ + seq![a as i32, b as i32, c as i32, d as i32],
{
    v.push(a as i32);
    v.push(b as i32);
    v.push(c as i32);
    v.push(d as i32);
    assert(v@ =~= old(v)@ + seq![a as i32, b as i32, c as i32, d as i32]);
}

/// Builds both candidate lists.
fn snap_candidates(
    panel: &PanelSpot,
    others: &Vec<PanelSpot>,
    target: &str,
    area: &MonitorArea,
    margin: i32,
) -> (r: (Vec<i32>, Vec<i32>))
    requires
        snap_in_range(x_candidates(*panel, others@, target@, *area, margin as int), panel.x as int),
        snap_in_range(y_candidates(*panel, others@, target@, *area, margin as int), panel.y as int),
    ensures
        r.0@ == as_i32_seq(x_candidates(*panel, others@, target@, *area, margin as int)),
        r.1@ == as_i32_seq(y_candidates(*panel, others@, target@, *area, margin as int)),
{
    let ghost xs = x_candidates(*panel, others@, target@, *area, margin as int);
    let ghost ys = y_candidates(*panel, others@, target@, *area, margin as int);
    proof {
        lemma_candidates_prefix(*panel, others@, target@, *area, margin as int, 0);
    }
    let right = area.x as i64 + area.width as i64;
    let bottom = area.y as i64 + area.height as i64;
    let mut cx: Vec<i32> = Vec::new();
    let mut cy: Vec<i32> = Vec::new();
    proof {
        let x0 = x_candidates(*panel, others@.take(0), target@, *area, margin as int);
        let y0 = y_candidates(*panel, others@.take(0), target@, *area, margin as int);
        assert(forall|j: int| 0 <= j < x0.len() ==> x0[j] == xs[j]);
        assert(forall|j: int| 0 <= j < y0.len() ==> y0[j] == ys[j]);
        assert(fits_i32(xs[0]) && fits_i32(xs[1]) && fits_i32(xs[2]) && fits_i32(xs[3]));
        assert(fits_i32(ys[0]) && fits_i32(ys[1]) && fits_i32(ys[2]) && fits_i32(ys[3]));
    }
    push4(
        &mut cx,
        area.x as i64,
        area.x as i64 + margin as i64,
        right - panel.width as i64,
        right - panel.width as i64 - margin as i64,
    );
    push4(
        &mut cy,
        area.y as i64,
        area.y as i64 + margin as i64,
        bottom - panel.height as i64,
        bottom - panel.height as i64 - margin as i64,
    );
    let tv = chars_of(target);
    let pid = chars_of(panel.id.as_str());
    let mut i: usize = 0;
    proof {
        assert(cx@ =~= as_i32_seq(x_candidates(*panel, others@.take(0), target@, *area, margin as int)));
        assert(cy@ =~= as_i32_seq(y_candidates(*panel, others@.take(0), target@, *area, margin as int)));
    }
    while i < others.len()
        invariant
            i <= others.len(),
            tv@ == target@,
            pid@ == panel.id@,
            xs == x_candidates(*panel, others@, target@, *area, margin as int),
            ys == y_candidates(*panel, others@, target@, *area, margin as int),
            snap_in_range(xs, panel.x as int),
            snap_in_range(ys, panel.y as int),
            cx@ == as_i32_seq(x_candidates(*panel, others@.take(i as int), target@, *area, margin as int)),
            cy@ == as_i32_seq(y_candidates(*panel, others@.take(i as int), target@, *area, margin as int)),
        decreases others.len() - i,
    {
        let o = &others[i];
        assert(others@.take(i + 1).drop_last() =~= others@.take(i as int));
        assert(others@.take(i + 1).last() == others@[i as int]);
        let oid = chars_of(o.id.as_str());
        let om = chars_of(o.monitor_id.as_str());
        if !chars_eq(&oid, &pid) && !o.hidden && chars_eq(&om, &tv) {
            proof {
                lemma_candidates_prefix(*panel, others@, target@, *area, margin as int, i + 1);
                let xp = x_candidates(*panel, others@.take(i + 1), target@, *area, margin as int);
                let yp = y_candidates(*panel, others@.take(i + 1), target@, *area, margin as int);
                let n = xp.len() - 4;
                assert(xp[n] == xs[n] && xp[n + 1] == xs[n + 1] && xp[n + 2] == xs[n + 2] && xp[n + 3] == xs[n + 3]);
                assert(yp[n] == ys[n] && yp[n + 1] == ys[n + 1] && yp[n + 2] == ys[n + 2] && yp[n + 3] == ys[n + 3]);
                assert(fits_i32(xs[n]) && fits_i32(xs[n + 1]) && fits_i32(xs[n + 2]) && fits_i32(xs[n + 3]));
                assert(fits_i32(ys[n]) && fits_i32(ys[n + 1]) && fits_i32(ys[n + 2]) && fits_i32(ys[n + 3]));
            }
            push4(
                &mut cx,
                o.x as i64,
                o.x as i64 + o.width as i64 - panel.width as i64,
                o.x as i64 + o.width as i64,
                o.x as i64 - panel.width as i64,
            );
            push4(
                &mut cy,
                o.y as i64,
                o.y as i64 + o.height as i64 - panel.height as i64,
                o.y as i64 + o.height as i64,
                o.y as i64 - panel.height as i64,
            );
            proof {
                let xq = x_candidates(*panel, others@.take(i as int), target@, *area, margin as int);
                let yq = y_candidates(*panel, others@.take(i as int), target@, *area, margin as int);
                assert(cx@ =~= as_i32_seq(x_candidates(*panel, others@.take(i + 1), target@, *area, margin as int)));
                assert(cy@ =~= as_i32_seq(y_candidates(*panel, others@.take(i + 1), target@, *area, margin as int)));
            }
        }
        i = i + 1;
    }
    assert(others@.take(others.len() as int) =~= others@);
    (cx, cy)
}

/// The candidate lists of a prefix of the panels are prefixes of the full lists.
proof fn lemma_candidates_prefix(
    panel: PanelSpot,
    others: Seq<PanelSpot>,
    target: Seq<char>,
    area: MonitorArea,
    margin: int,
    n: int,
)
    requires
        0 <= n <= others.len(),
    ensures
        x_candidates(panel, others.take(n), target, area, margin).len() <= x_candidates(panel, others, target, area, margin).len(),
        y_candidates(panel, others.take(n), target, area, margin).len() <= y_candidates(panel, others, target, area, margin).len(),
        x_candidates(panel, others.take(n), target, area, margin).len() == y_candidates(panel, others.take(n), target, area, margin).len(),
        x_candidates(panel, others.take(n), target, area, margin).len() >= 4,
        forall|j: int| 0 <= j < x_candidates(panel, others.take(n), target, area, margin).len() ==>
            x_candidates(panel, others.take(n), target, area, margin)[j] == #[trigger] x_candidates(panel, others, target, area, margin)[j],
        forall|j: int| 0 <= j < y_candidates(panel, others.take(n), target, area, margin).len() ==>
            y_candidates(panel, others.take(n), target, area, margin)[j] == #[trigger] y_candidates(panel, others, target, area, margin)[j],
    decreases others.len(),
{
    if n == others.len() {
        assert(others.take(n) =~= others);
        lemma_candidates_len(panel, others, target, area, margin);
    } else {
        assert(others.drop_last().take(n) =~= others.take(n));
        lemma_candidates_prefix(panel, others.drop_last(), target, area, margin, n);
    }
}

proof fn lemma_candidates_len(
    panel: PanelSpot,
    others: Seq<PanelSpot>,
    target: Seq<char>,
    area: MonitorArea,
    margin: int,
)
    ensures
        x_candidates(panel, others, target, area, margin).len() == y_candidates(panel, others, target, area, margin).len(),
        x_candidates(panel, others, target, area, margin).len() >= 4,
    decreases others.len(),
{
    if others.len() > 0 {
        lemma_candidates_len(panel, others.drop_last(), target, area, margin);
    }
}

/// Where a dropped panel snaps to, or `None` when it stays where it was
/// dropped: snapping is off, the panel is expanded, or no edge is within
/// `threshold` on either axis.
pub open spec fn snap_result(
    panel: PanelSpot,
    snap_enabled: bool,
    expanded: bool,
    others: Seq<PanelSpot>,
    target: Seq<char>,
    area: MonitorArea,
    margin: int,
    threshold: int,
    bx: Option<i32>,
    by: Option<i32>,
) -> Option<(i32, i32)> {
    if !snap_enabled || expanded || (bx is None && by is None) {
        None
    } else {
        Some(
            (
                match bx {
                    Some(v) => v,
                    None => panel.x,
                },
                match by {
                    Some(v) => v,
                    None => panel.y,
                },
            ),
        )
    }
}

/// The best candidate as `best_candidate` chooses it.
pub open spec fn best_of(value: int, cs: Seq<i32>, threshold: int) -> Option<i32> {
    if exists|i: int| is_best_candidate(value, cs, threshold, i) {
        Some(cs[choose|i: int| is_best_candidate(value, cs, threshold, i)])
    } else {
        None
    }
}

proof fn lemma_best_unique(value: int, cs: Seq<i32>, threshold: int, i: int, k: int)
    requires
        is_best_candidate(value, cs, threshold, i),
        is_best_candidate(value, cs, threshold, k),
    ensures
        i == k,
{
    if i < k {
        assert(distance(cs[k] as int, value) < distance(cs[i] as int, value));
    } else if k < i {
        assert(distance(cs[i] as int, value) < distance(cs[k] as int, value));
    }
}

proof fn lemma_best_exists(value: int, cs: Seq<i32>, threshold: int)
    requires
        exists|j: int| 0 <= j < cs.len() && distance(#[trigger] cs[j] as int, value) <= threshold,
    ensures
        exists|i: int| is_best_candidate(value, cs, threshold, i),
    decreases cs.len(),
{
    let n = cs.len() - 1;
    let p = cs.drop_last();
    if exists|j: int| 0 <= j < p.len() && distance(#[trigger] p[j] as int, value) <= threshold {
        lemma_best_exists(value, p, threshold);
        let i0 = choose|i: int| is_best_candidate(value, p, threshold, i);
        if distance(cs[n] as int, value) <= threshold && distance(cs[n] as int, value) < distance(
            cs[i0] as int,
            value,
        ) {
            assert forall|j: int|
                0 <= j < cs.len() && distance(cs[j] as int, value) <= threshold implies distance(
                cs[n] as int,
                value,
            ) <= distance(#[trigger] cs[j] as int, value) by {
                if j < n {
                    assert(p[j] == cs[j]);
                }
            }
            assert forall|j: int|
                0 <= j < n && distance(cs[j] as int, value) <= threshold implies distance(
                cs[n] as int,
                value,
            ) < distance(#[trigger] cs[j] as int, value) by {
                assert(p[j] == cs[j]);
            }
            assert(is_best_candidate(value, cs, threshold, n));
        } else {
            assert forall|j: int|
                0 <= j < cs.len() && distance(cs[j] as int, value) <= threshold implies distance(
                cs[i0] as int,
                value,
            ) <= distance(#[trigger] cs[j] as int, value) by {
                if j < n {
                    assert(p[j] == cs[j]);
                }
            }
            assert forall|j: int|
                0 <= j < i0 && distance(cs[j] as int, value) <= threshold implies distance(
                cs[i0] as int,
                value,
            ) < distance(#[trigger] cs[j] as int, value) by {
                assert(p[j] == cs[j]);
            }
            assert(is_best_candidate(value, cs, threshold, i0));
        }
    } else {
        let j0 = choose|j: int| 0 <= j < cs.len() && distance(#[trigger] cs[j] as int, value) <= threshold;
        if j0 < n {
            assert(p[j0] == cs[j0]);
        }
        assert forall|j: int| 0 <= j < n implies distance(#[trigger] cs[j] as int, value) > threshold by {
            assert(p[j] == cs[j]);
        }
        assert(is_best_candidate(value, cs, threshold, n));
    }
}

/// A coordinate snaps to the candidate nearest to it among those within
/// `threshold`, and stays where it is when none is that near.
pub proof fn lemma_snaps_to_nearest(value: int, cs: Seq<i32>, threshold: int)
    ensures
        best_of(value, cs, threshold) is None <==> forall|j: int|
            0 <= j < cs.len() ==> distance(#[trigger] cs[j] as int, value) > threshold,
        best_of(value, cs, threshold) matches Some(v) ==> {
            &&& cs.contains(v)
            &&& distance(v as int, value) <= threshold
            &&& forall|j: int|
                0 <= j < cs.len() && distance(cs[j] as int, value) <= threshold ==> distance(
                    v as int,
                    value,
                ) <= distance(#[trigger] cs[j] as int, value)
        },
{
    if exists|j: int| 0 <= j < cs.len() && distance(#[trigger] cs[j] as int, value) <= threshold {
        lemma_best_exists(value, cs, threshold);
    }
    if exists|i: int| is_best_candidate(value, cs, threshold, i) {
        let i = choose|i: int| is_best_candidate(value, cs, threshold, i);
        assert(cs[i] == best_of(value, cs, threshold)->0);
    }
}

pub fn snapped_position(
    panel: &PanelSpot,
    snap_enabled: bool,
    expanded: bool,
    others: &Vec<PanelSpot>,
    target_monitor: &str,
    area: &MonitorArea,
    margin: i32,
    threshold: i32,
) -> (r: Option<(i32, i32)>)
    requires
        snap_in_range(x_candidates(*panel, others@, target_monitor@, *area, margin as int), panel.x as int),
        snap_in_range(y_candidates(*panel, others@, target_monitor@, *area, margin as int), panel.y as int),
    ensures
        r == snap_result(
            *panel,
            snap_enabled,
            expanded,
            others@,
            target_monitor@,
            *area,
            margin as int,
            threshold as int,
            best_of(panel.x as int, as_i32_seq(x_candidates(*panel, others@, target_monitor@, *area, margin as int)), threshold as int),
            best_of(panel.y as int, as_i32_seq(y_candidates(*panel, others@, target_monitor@, *area, margin as int)), threshold as int),
        ),
{
    if !snap_enabled || expanded {
        return None;
    }
    let (xs, ys) = snap_candidates(panel, others, target_monitor, area, margin);
    let ghost gx = x_candidates(*panel, others@, target_monitor@, *area, margin as int);
    let ghost gy = y_candidates(*panel, others@, target_monitor@, *area, margin as int);
    assert forall|j: int| 0 <= j < xs@.len() implies i32::MIN < #[trigger] xs@[j] - panel.x <= i32::MAX by {
        assert(xs@[j] == gx[j] as i32);
        assert(fits_i32(gx[j]));
    }
    assert forall|j: int| 0 <= j < ys@.len() implies i32::MIN < #[trigger] ys@[j] - panel.y <= i32::MAX by {
        assert(ys@[j] == gy[j] as i32);
        assert(fits_i32(gy[j]));
    }
    let bx = best_candidate(panel.x, xs.as_slice(), threshold);
    let by = best_candidate(panel.y, ys.as_slice(), threshold);
    proof {
        let bxs = best_of(panel.x as int, xs@, threshold as int);
        if let Some(v) = bx {
            let i = choose|i: int| is_best_candidate(panel.x as int, xs@, threshold as int, i) && xs@[i] == v;
            let c = choose|i: int| is_best_candidate(panel.x as int, xs@, threshold as int, i);
            lemma_best_unique(panel.x as int, xs@, threshold as int, i, c);
        } else {
            if exists|i: int| is_best_candidate(panel.x as int, xs@, threshold as int, i) {
                let c = choose|i: int| is_best_candidate(panel.x as int, xs@, threshold as int, i);
                assert(distance(xs@[c] as int, panel.x as int) <= threshold);
            }
        }
        if let Some(v) = by {
            let i = choose|i: int| is_best_candidate(panel.y as int, ys@, threshold as int, i) && ys@[i] == v;
            let c = choose|i: int| is_best_candidate(panel.y as int, ys@, threshold as int, i);
            lemma_best_unique(panel.y as int, ys@, threshold as int, i, c);
        } else {
            if exists|i: int| is_best_candidate(panel.y as int, ys@, threshold as int, i) {
                let c = choose|i: int| is_best_candidate(panel.y as int, ys@, threshold as int, i);
                assert(distance(ys@[c] as int, panel.y as int) <= threshold);
            }
        }
    }
    if bx.is_none() && by.is_none() {
        return None;
    }
    let x = match bx {
        Some(v) => v,
        None => panel.x,
    };
    let y = match by {
        Some(v) => v,
        None => panel.y,
    };
    Some((x, y))
}

} // verus!
