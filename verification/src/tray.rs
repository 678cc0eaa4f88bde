//! The notification-area icon: its permanent identity and its menu actions.
use vstd::prelude::*;

verus! {

/// A Windows GUID, laid out as `GUID` is: three integers and eight bytes.
#[derive(Clone, Copy, Debug)]
pub struct Guid {
    pub data1: u32,
    pub data2: u16,
    pub data3: u16,
    pub data4: [u8; 8],
}

pub open spec fn guid_value(g: Guid) -> int {
    g.data1 as int * 0x1_0000_0000_0000_0000_0000_0000 + g.data2 as int * 0x1_0000_0000_0000_0000_0000
        + g.data3 as int * 0x1_0000_0000_0000_0000 + g.data4@[0] as int * 0x100_0000_0000_0000
        + g.data4@[1] as int * 0x1_0000_0000_0000 + g.data4@[2] as int * 0x100_0000_0000
        + g.data4@[3] as int * 0x1_0000_0000 + g.data4@[4] as int * 0x100_0000 + g.data4@[5] as int
        * 0x1_0000 + g.data4@[6] as int * 0x100 + g.data4@[7] as int
}

impl Guid {
    /// The GUID whose big-endian 128-bit value is `v`.
    pub fn from_u128(v: u128) -> (g: Guid)
        ensures
            guid_value(g) == v,
    {
        let d1 = (v >> 96u32) as u32;
        let d2 = ((v >> 80u32) & 0xffff) as u16;
        let d3 = ((v >> 64u32) & 0xffff) as u16;
        let b0 = ((v >> 56u32) & 0xff) as u8;
        let b1 = ((v >> 48u32) & 0xff) as u8;
        let b2 = ((v >> 40u32) & 0xff) as u8;
        let b3 = ((v >> 32u32) & 0xff) as u8;
        let b4 = ((v >> 24u32) & 0xff) as u8;
        let b5 = ((v >> 16u32) & 0xff) as u8;
        let b6 = ((v >> 8u32) & 0xff) as u8;
        let b7 = (v & 0xff) as u8;
        assert(d1 as int * 0x1_0000_0000_0000_0000_0000_0000 + d2 as int
            * 0x1_0000_0000_0000_0000_0000 + d3 as int * 0x1_0000_0000_0000_0000 + b0 as int
            * 0x100_0000_0000_0000 + b1 as int * 0x1_0000_0000_0000 + b2 as int * 0x100_0000_0000
            + b3 as int * 0x1_0000_0000 + b4 as int * 0x100_0000 + b5 as int * 0x1_0000 + b6 as int
            * 0x100 + b7 as int == v) by (bit_vector)
            requires
                d1 == (v >> 96u32) as u32,
                d2 == ((v >> 80u32) & 0xffff) as u16,
                d3 == ((v >> 64u32) & 0xffff) as u16,
                b0 == ((v >> 56u32) & 0xff) as u8,
                b1 == ((v >> 48u32) & 0xff) as u8,
                b2 == ((v >> 40u32) & 0xff) as u8,
                b3 == ((v >> 32u32) & 0xff) as u8,
                b4 == ((v >> 24u32) & 0xff) as u8,
                b5 == ((v >> 16u32) & 0xff) as u8,
                b6 == ((v >> 8u32) & 0xff) as u8,
                b7 == (v & 0xff) as u8,
        ;
        let g = Guid { data1: d1, data2: d2, data3: d3, data4: [b0, b1, b2, b3, b4, b5, b6, b7] };
        g
    }

    /// The big-endian 128-bit value of the GUID.
    pub fn to_u128(&self) -> (v: u128)
        ensures
            v == guid_value(*self),
    {
        let d = self.data4;
        (self.data1 as u128) * 0x1_0000_0000_0000_0000_0000_0000u128 + (self.data2 as u128)
            * 0x1_0000_0000_0000_0000_0000u128 + (self.data3 as u128) * 0x1_0000_0000_0000_0000u128
            + (d[0] as u128) * 0x100_0000_0000_0000u128 + (d[1] as u128) * 0x1_0000_0000_0000u128
            + (d[2] as u128) * 0x100_0000_0000u128 + (d[3] as u128) * 0x1_0000_0000u128 + (d[4]
            as u128) * 0x100_0000u128 + (d[5] as u128) * 0x1_0000u128 + (d[6] as u128) * 0x100u128
            + (d[7] as u128)
    }
}

/// The tray icon's permanent identity. Windows recognizes the icon by it, so
/// a restarted application replaces its old icon instead of adding one.
pub fn tray_guid() -> (g: Guid)
    ensures
        guid_value(g) == 0x7b3d_1a64_9e52_4c8f_a6d1_2f0b_5e7c_4a93,
{
    Guid::from_u128(0x7b3d_1a64_9e52_4c8f_a6d1_2f0b_5e7c_4a93u128)
}

/// The entries of the tray menu.
#[derive(Clone, Copy, Debug, PartialEq, Eq, Structural)]
pub enum TrayAction {
    NewDrawer,
    OpenAdmin,
    ShowAll,
    HideAll,
    OpenDrawers,
    ShowDock,
    HideDock,
    NewPanel,
    ShowPanels,
    HidePanels,
    Settings,
    Quit,
}

pub open spec fn spec_command_id(a: TrayAction) -> u32 {
    match a {
        TrayAction::NewDrawer => 1,
        TrayAction::OpenAdmin => 2,
        TrayAction::ShowAll => 3,
        TrayAction::HideAll => 4,
        TrayAction::OpenDrawers => 5,
        TrayAction::ShowDock => 6,
        TrayAction::HideDock => 7,
        TrayAction::NewPanel => 8,
        TrayAction::ShowPanels => 9,
        TrayAction::HidePanels => 10,
        TrayAction::Settings => 11,
        TrayAction::Quit => 12,
    }
}

/// The menu command number of an action; `0` is what the menu returns when
/// nothing was chosen, so no action uses it.
pub fn command_id(a: TrayAction) -> (r: u32)
    ensures
        r == spec_command_id(a),
{
    match a {
        TrayAction::NewDrawer => 1,
        TrayAction::OpenAdmin => 2,
        TrayAction::ShowAll => 3,
        TrayAction::HideAll => 4,
        TrayAction::OpenDrawers => 5,
        TrayAction::ShowDock => 6,
        TrayAction::HideDock => 7,
        TrayAction::NewPanel => 8,
        TrayAction::ShowPanels => 9,
        TrayAction::HidePanels => 10,
        TrayAction::Settings => 11,
        TrayAction::Quit => 12,
    }
}

/// The action of a menu command number; `None` for `0` and unknown numbers.
pub fn action_for(id: u32) -> (r: Option<TrayAction>)
    ensures
        r matches Some(a) ==> spec_command_id(a) == id,
        r is None ==> forall|a: TrayAction| spec_command_id(a) != id,
{
    match id {
        1 => Some(TrayAction::NewDrawer),
        2 => Some(TrayAction::OpenAdmin),
        3 => Some(TrayAction::ShowAll),
        4 => Some(TrayAction::HideAll),
        5 => Some(TrayAction::OpenDrawers),
        6 => Some(TrayAction::ShowDock),
        7 => Some(TrayAction::HideDock),
        8 => Some(TrayAction::NewPanel),
        9 => Some(TrayAction::ShowPanels),
        10 => Some(TrayAction::HidePanels),
        11 => Some(TrayAction::Settings),
        12 => Some(TrayAction::Quit),
        _ => None,
    }
}

/// Every action has its own non-zero command number.
pub proof fn lemma_command_ids_distinct(a: TrayAction, b: TrayAction)
    ensures
        spec_command_id(a) != 0,
        spec_command_id(a) == spec_command_id(b) ==> a == b,
{
}

} // verus!
