//! The diagnostic log: the text of each entry, which files are the log's
//! own, and how a full log is rotated into numbered files.
use vstd::prelude::*;

use crate::text::{
    chars_of, dec_digits, has_prefix, has_suffix, push_char, push_decimal, push_str, str_eq,
};

verus! {

pub struct LogService;

pub const ACTIVE_LOG: &'static str = "desktop-organizer.log";

pub const MAX_LOG_BYTES: u64 = 1048576;

pub const MAX_LOG_FILES: usize = 5;

/// The message on one line: carriage returns and line feeds become spaces.
pub open spec fn one_line(message: Seq<char>) -> Seq<char> {
    message.map_values(|c: char| if c == '\r' || c == '\n' { ' ' } else { c })
}

/// `<seconds> [<LEVEL>] <message>` and a line feed.
pub open spec fn log_line(timestamp: u64, level: Seq<char>, message: Seq<char>) -> Seq<char> {
    dec_digits(timestamp as nat) + " ["@ + level + "] "@ + one_line(message) + "\n"@
}

/// An entry takes exactly one line of the log: it ends with a line feed
/// and holds no other line break, whatever its message holds; the message's
/// own characters are kept, line breaks turned into spaces.
pub proof fn lemma_entry_is_one_line(timestamp: u64, level: Seq<char>, message: Seq<char>)
    requires
        forall|i: int| 0 <= i < level.len() ==> #[trigger] level[i] != '\n' && level[i] != '\r',
    ensures
        ({
            let l = log_line(timestamp, level, message);
            &&& l.last() == '\n'
            &&& forall|i: int| 0 <= i < l.len() - 1 ==> #[trigger] l[i] != '\n' && l[i] != '\r'
            &&& one_line(message).len() == message.len()
            &&& forall|i: int|
                0 <= i < message.len() && message[i] != '\n' && message[i] != '\r'
                    ==> #[trigger] one_line(message)[i] == message[i]
        }),
{
    reveal_strlit(" [");
    reveal_strlit("] ");
    reveal_strlit("\n");
    crate::text::lemma_decimal_reads_back(timestamp as nat);
    let d = dec_digits(timestamp as nat);
    let l = log_line(timestamp, level, message);
    let m = one_line(message);
    let a = d + " ["@;
    let b = a + level;
    let c = b + "] "@;
    let e = c + m;
    assert(l == e + "\n"@);
    assert forall|i: int| 0 <= i < l.len() - 1 implies #[trigger] l[i] != '\n' && l[i] != '\r' by {
        assert(l[i] == e[i]);
        if i >= c.len() {
            assert(e[i] == m[i - c.len()]);
        } else if i >= b.len() {
            assert(c[i] == "] "@[i - b.len()]);
        } else if i >= a.len() {
            assert(b[i] == level[i - a.len()]);
        } else if i >= d.len() {
            assert(a[i] == " ["@[i - d.len()]);
        } else {
            assert(a[i] == d[i]);
        }
    }
}

impl LogService {
    /// The line appended to the log for an entry of `level` written at
    /// `timestamp` (seconds since the Unix epoch).
    pub fn entry(level: &str, timestamp: u64, message: &str) -> (r: String)
        ensures
            r@ == log_line(timestamp, level@, message@),
    {
        let mut line = String::new();
        push_decimal(&mut line, timestamp);
        push_str(&mut line, " [");
        push_str(&mut line, level);
        push_str(&mut line, "] ");
        let v = chars_of(message);
        let ghost before = line@;
        let mut i: usize = 0;
        while i < v.len()
            invariant
                i <= v.len(),
                v@ == message@,
                line@ == before + one_line(v@.take(i as int)),
            decreases v.len() - i,
        {
            let c = if v[i] == '\r' || v[i] == '\n' {
                ' '
            } else {
                v[i]
            };
            push_char(&mut line, c);
            assert(one_line(v@.take(i + 1)) =~= one_line(v@.take(i as int)).push(c));
            assert(before + one_line(v@.take(i + 1)) =~= (before + one_line(
                v@.take(i as int),
            )).push(c));
            i = i + 1;
        }
        assert(v@.take(v.len() as int) =~= v@);
        push_char(&mut line, '\n');
        proof {
            reveal_strlit(" [");
            reveal_strlit("] ");
            reveal_strlit("\n");
            assert(line@ =~= log_line(timestamp, level@, message@));
        }
        line
    }

    /// The line of an informative entry.
    pub fn info(timestamp: u64, message: &str) -> (r: String)
        ensures
            r@ == log_line(timestamp, "INFO"@, message@),
    {
        Self::entry("INFO", timestamp, message)
    }

    /// The line of an error entry.
    pub fn error(timestamp: u64, message: &str) -> (r: String)
        ensures
            r@ == log_line(timestamp, "ERROR"@, message@),
    {
        Self::entry("ERROR", timestamp, message)
    }

    /// Whether the active log has reached the size at which it is rotated.
    pub fn needs_rotation(active_size: Option<u64>) -> (r: bool)
        ensures
            r == (active_size matches Some(n) && n >= MAX_LOG_BYTES),
    {
        match active_size {
            Some(n) => n >= MAX_LOG_BYTES,
            None => false,
        }
    }
}

/// `desktop-organizer.<index>.log`.
pub open spec fn rotated_log(index: nat) -> Seq<char> {
    "desktop-organizer."@ + dec_digits(index) + ".log"@
}

pub fn rotated_log_name(index: usize) -> (r: String)
    ensures
        r@ == rotated_log(index as nat),
{
    let mut name = "desktop-organizer.".to_owned();
    push_decimal(&mut name, index as u64);
    push_str(&mut name, ".log");
    proof {
        reveal_strlit("desktop-organizer.");
        reveal_strlit(".log");
    }
    name
}

/// One step of a rotation: delete a file, or rename one onto another name.
pub enum RotationStep {
    Remove(String),
    Rename(String, String),
}

pub open spec fn renames(step: RotationStep, from: Seq<char>, to: Seq<char>) -> bool {
    step matches RotationStep::Rename(a, b) && a@ == from && b@ == to
}

pub open spec fn removes(step: RotationStep, name: Seq<char>) -> bool {
    step matches RotationStep::Remove(n) && n@ == name
}

/// The rotation, in the order it is carried out: the oldest numbered file
/// goes, every numbered file moves up by one, and the active log becomes
/// number one. Steps on files that do not exist are skipped, except the
/// last.
pub open spec fn rotation(k: int) -> (Seq<char>, Seq<char>) {
    (rotated_log((MAX_LOG_FILES - 2 - k) as nat), rotated_log((MAX_LOG_FILES - 1 - k) as nat))
}

pub fn rotation_plan() -> (r: Vec<RotationStep>)
    ensures
        r@.len() == MAX_LOG_FILES,
        removes(r@[0], rotated_log((MAX_LOG_FILES - 1) as nat)),
        forall|k: int|
            0 <= k < MAX_LOG_FILES - 2 ==> renames(#[trigger] r@[k + 1], rotation(k).0, rotation(k).1),
        renames(r@[MAX_LOG_FILES - 1], ACTIVE_LOG@, rotated_log(1)),
{
    let mut steps: Vec<RotationStep> = Vec::new();
    steps.push(RotationStep::Remove(rotated_log_name(MAX_LOG_FILES - 1)));
    let mut index: usize = MAX_LOG_FILES - 2;
    while index >= 1
        invariant
            0 <= index <= MAX_LOG_FILES - 2,
            steps@.len() == MAX_LOG_FILES - 1 - index,
            removes(steps@[0], rotated_log((MAX_LOG_FILES - 1) as nat)),
            forall|k: int|
                0 <= k < steps@.len() - 1 ==> renames(
                    #[trigger] steps@[k + 1],
                    rotation(k).0,
                    rotation(k).1,
                ),
        decreases index,
    {
        let from = rotated_log_name(index);
        let to = rotated_log_name(index + 1);
        steps.push(RotationStep::Rename(from, to));
        index = index - 1;
    }
    let active = ACTIVE_LOG.to_owned();
    steps.push(RotationStep::Rename(active, rotated_log_name(1)));
    steps
}

/// The files of the log directory that belong to the log: the active log
/// and every `desktop-organizer.*.log`.
pub open spec fn managed_log_name(name: Seq<char>) -> bool {
    name == ACTIVE_LOG@ || ("desktop-organizer."@.is_prefix_of(name) && ".log"@.is_suffix_of(name))
}

pub fn is_managed_log_name(name: &str) -> (r: bool)
    ensures
        r == managed_log_name(name@),
{
    let v = chars_of(name);
    let prefix = chars_of("desktop-organizer.");
    let suffix = chars_of(".log");
    proof {
        reveal_strlit("desktop-organizer.");
        reveal_strlit(".log");
    }
    str_eq(name, ACTIVE_LOG) || (has_prefix(&v, &prefix) && has_suffix(&v, &suffix))
}

} // verus!
