//! Where a click on the main window lands: its buttons, the sidebar, the
//! settings list and the grid of tools, in logical pixels.

use vstd::prelude::*;

verus! {

/// Width of the sidebar.
pub const SIDEBAR_WIDTH: i32 = 200;

/// Top of the first sidebar row.
pub const SIDEBAR_TOP: i32 = 56;

/// Height of a sidebar row.
pub const SIDEBAR_ROW_HEIGHT: i32 = 40;

/// Left edge of the tool grid.
pub const GRID_LEFT: i32 = 216;

/// Top edge of the tool grid.
pub const GRID_TOP: i32 = 56;

/// Width of a tool cell.
pub const GRID_CELL_WIDTH: i32 = 75;

/// Height of a tool cell.
pub const GRID_CELL_HEIGHT: i32 = 80;

/// Tool cells in a row.
pub const GRID_COLUMNS: usize = 10;

/// Left edge of the menu button.
pub const MENU_LEFT: i32 = 891;

/// Left edge of the settings list.
pub const SETTINGS_LEFT: i32 = 216;

/// Top edge of the settings list.
pub const SETTINGS_TOP: i32 = 60;

/// Height of a settings row.
pub const SETTINGS_ROW_HEIGHT: i32 = 30;

/// A line of the settings list.
#[derive(Debug, Clone, Copy, PartialEq, Eq, Structural)]
pub enum SettingAction {
    SilentHardware,
    ChooseSkin,
    InternalImageViewer,
    ToolTips,
    WindowEffects,
}

/// What a click lands on.
#[derive(Debug, Clone, Copy, PartialEq, Eq, Structural)]
pub enum HitTarget {
    Sidebar(usize),
    Tool(usize),
    Menu,
    Setting(SettingAction),
    Minimize,
    Close,
}

/// What the window shows when it is clicked: how many sidebar entries,
/// whether the settings list is open, whether a tools page is shown, and
/// how many tools it lists.
#[derive(Debug, Clone, Copy)]
pub struct HitContext {
    pub sidebar_len: usize,
    pub settings_visible: bool,
    pub tools_page: bool,
    pub tool_count: usize,
}

/// The settings line at row `index`, if there is one.
pub open spec fn setting_at(index: int) -> Option<SettingAction> {
    if index == 0 {
        Some(SettingAction::SilentHardware)
    } else if index == 1 {
        Some(SettingAction::ChooseSkin)
    } else if index == 2 {
        Some(SettingAction::InternalImageViewer)
    } else if index == 3 {
        Some(SettingAction::ToolTips)
    } else if index == 4 {
        Some(SettingAction::WindowEffects)
    } else {
        None
    }
}

/// What a click at `(x, y)` lands on, tried in order: the close, minimize
/// and menu buttons along the top; a sidebar row; with the settings list
/// open, a settings row (and nothing below the last); on a tools page, a
/// tool cell.
pub open spec fn spec_hit_test(x: int, y: int, c: HitContext) -> Option<HitTarget> {
    if 971 <= x <= 1010 && 8 <= y <= 48 {
        Some(HitTarget::Close)
    } else if 931 <= x <= 970 && 8 <= y <= 48 {
        Some(HitTarget::Minimize)
    } else if MENU_LEFT <= x <= 930 && 8 <= y <= 48 {
        Some(HitTarget::Menu)
    } else if x < SIDEBAR_WIDTH && y >= SIDEBAR_TOP && (y - SIDEBAR_TOP) / (SIDEBAR_ROW_HEIGHT as int) < c.sidebar_len {
        Some(HitTarget::Sidebar(((y - SIDEBAR_TOP) / (SIDEBAR_ROW_HEIGHT as int)) as usize))
    } else if c.settings_visible && x >= SETTINGS_LEFT && y >= SETTINGS_TOP {
        match setting_at((y - SETTINGS_TOP) / (SETTINGS_ROW_HEIGHT as int)) {
            Some(a) => Some(HitTarget::Setting(a)),
            None => None,
        }
    } else if c.tools_page && x >= GRID_LEFT && y >= GRID_TOP && (x - GRID_LEFT) / (GRID_CELL_WIDTH as int) < GRID_COLUMNS
        && ((y - GRID_TOP) / (GRID_CELL_HEIGHT as int)) * (GRID_COLUMNS as int) + (x - GRID_LEFT) / (GRID_CELL_WIDTH as int) < c.tool_count {
        Some(
            HitTarget::Tool(
                (((y - GRID_TOP) / (GRID_CELL_HEIGHT as int)) * (GRID_COLUMNS as int) + (x - GRID_LEFT) / (GRID_CELL_WIDTH as int)) as usize,
            ),
        )
    } else {
        None
    }
}

/// What a click at the logical point `(x, y)` lands on.
pub fn hit_test(x: i32, y: i32, c: HitContext) -> (r: Option<HitTarget>)
    ensures
        r == spec_hit_test(x as int, y as int, c),
{
    if 971 <= x && x <= 1010 && 8 <= y && y <= 48 {
        return Some(HitTarget::Close);
    }
    if 931 <= x && x <= 970 && 8 <= y && y <= 48 {
        return Some(HitTarget::Minimize);
    }
    if MENU_LEFT <= x && x <= 930 && 8 <= y && y <= 48 {
        return Some(HitTarget::Menu);
    }
    if x < SIDEBAR_WIDTH && y >= SIDEBAR_TOP {
        let index = ((y - SIDEBAR_TOP) / SIDEBAR_ROW_HEIGHT) as usize;
        if index < c.sidebar_len {
            return Some(HitTarget::Sidebar(index));
        }
    }
    if c.settings_visible && x >= SETTINGS_LEFT && y >= SETTINGS_TOP {
        let index = (y - SETTINGS_TOP) / SETTINGS_ROW_HEIGHT;
        let action = if index == 0 {
            SettingAction::SilentHardware
        } else if index == 1 {
            SettingAction::ChooseSkin
        } else if index == 2 {
            SettingAction::InternalImageViewer
        } else if index == 3 {
            SettingAction::ToolTips
        } else if index == 4 {
            SettingAction::WindowEffects
        } else {
            return None;
        };
        return Some(HitTarget::Setting(action));
    }
    if c.tools_page && x >= GRID_LEFT && y >= GRID_TOP {
        let column = ((x - GRID_LEFT) / GRID_CELL_WIDTH) as usize;
        let row = ((y - GRID_TOP) / GRID_CELL_HEIGHT) as usize;
        if column < GRID_COLUMNS {
            assert(row <= 0x7fff_ffffint / 80);
            let index = row * GRID_COLUMNS + column;
            if index < c.tool_count {
                return Some(HitTarget::Tool(index));
            }
        }
    }
    None
}

} // verus!
