//! The sidebar of the main window: the hardware page, then one entry per
//! tool category, each tied to the catalog's category of that name.

use vstd::prelude::*;

use crate::catalog::{ToolCatalog, ToolCategory};
use crate::chars::{eq_ignore_ascii_case, first_match, lemma_first_match, str_eq_ignore_ascii_case};

verus! {

/// What a sidebar entry opens.
#[derive(Debug, Clone, PartialEq, Eq)]
pub enum PageKind {
    Hardware,
    /// The catalog categories the page lists, by position.
    Tools(Vec<usize>),
    Settings,
}

/// One sidebar entry.
#[derive(Debug, Clone)]
pub struct SidebarItem {
    pub label: String,
    pub page: PageKind,
}

/// The number of sidebar entries.
pub const SIDEBAR_LEN: usize = 12;

/// The label of sidebar entry `i`.
pub open spec fn sidebar_label(i: int) -> Seq<char> {
    if i == 0 {
        "硬件信息"@
    } else if i == 1 {
        "CPU工具"@
    } else if i == 2 {
        "主板工具"@
    } else if i == 3 {
        "内存工具"@
    } else if i == 4 {
        "显卡工具"@
    } else if i == 5 {
        "硬盘工具"@
    } else if i == 6 {
        "屏幕工具"@
    } else if i == 7 {
        "综合检测"@
    } else if i == 8 {
        "外设工具"@
    } else if i == 9 {
        "烤鸡工具"@
    } else if i == 10 {
        "游戏工具"@
    } else {
        "其他工具"@
    }
}

/// The names of the categories.
pub open spec fn category_names(categories: Seq<ToolCategory>) -> Seq<Seq<char>> {
    categories.map_values(|c: ToolCategory| c.name@)
}

/// The position of the first category named `name` up to ASCII case, as a
/// list of none or one.
pub open spec fn matching_category(categories: Seq<ToolCategory>, name: Seq<char>) -> Seq<usize> {
    match first_match(category_names(categories), name) {
        Some(k) => seq![k as usize],
        None => Seq::empty(),
    }
}

/// The page of sidebar entry `i`: the hardware page first, then the tool
/// page of the category with the entry's label.
pub open spec fn sidebar_page_matches(categories: Seq<ToolCategory>, i: int, page: PageKind) -> bool {
    if i == 0 {
        page is Hardware
    } else {
        page matches PageKind::Tools(v) && v@ == matching_category(categories, sidebar_label(i))
    }
}

/// The first category named `name` up to ASCII case, as a list of none or
/// one position.
fn category_position(categories: &Vec<ToolCategory>, name: &str) -> (r: Vec<usize>)
    ensures
        r@ == matching_category(categories@, name@),
{
    let ghost names = category_names(categories@);
    let mut i: usize = 0;
    while i < categories.len()
        invariant
            i <= categories@.len(),
            names == category_names(categories@),
            forall|k: int| 0 <= k < i ==> !eq_ignore_ascii_case(#[trigger] names[k], name@),
        decreases categories@.len() - i,
    {
        if str_eq_ignore_ascii_case(categories[i].name.as_str(), name) {
            proof {
                lemma_first_match(names, name@, i as int);
            }
            let mut r: Vec<usize> = Vec::new();
            r.push(i);
            proof {
                assert(r@ =~= seq![i]);
            }
            return r;
        }
        i = i + 1;
    }
    proof {
        lemma_first_match(names, name@, i as int);
    }
    Vec::new()
}

/// The sidebar entry labelled `label`, tied to its category.
fn tool_item(categories: &Vec<ToolCategory>, label: &str) -> (r: SidebarItem)
    ensures
        r.label@ == label@,
        r.page matches PageKind::Tools(v) && v@ == matching_category(categories@, label@),
{
    SidebarItem { label: label.to_owned(), page: PageKind::Tools(category_position(categories, label)) }
}

/// The sidebar for `catalog`: the hardware page, then the tool pages of the
/// eleven categories, each listing the first catalog category with its name
/// up to ASCII case, or none.
pub fn sidebar_entries(catalog: &ToolCatalog) -> (r: Vec<SidebarItem>)
    ensures
        r@.len() == SIDEBAR_LEN,
        forall|i: int|
            0 <= i < SIDEBAR_LEN ==> (#[trigger] r@[i]).label@ == sidebar_label(i) && sidebar_page_matches(
                catalog.categories@,
                i,
                r@[i].page,
            ),
{
    let cs = &catalog.categories;
    let mut r: Vec<SidebarItem> = Vec::new();
    r.push(SidebarItem { label: "硬件信息".to_owned(), page: PageKind::Hardware });
    r.push(tool_item(cs, "CPU工具"));
    r.push(tool_item(cs, "主板工具"));
    r.push(tool_item(cs, "内存工具"));
    r.push(tool_item(cs, "显卡工具"));
    r.push(tool_item(cs, "硬盘工具"));
    r.push(tool_item(cs, "屏幕工具"));
    r.push(tool_item(cs, "综合检测"));
    r.push(tool_item(cs, "外设工具"));
    r.push(tool_item(cs, "烤鸡工具"));
    r.push(tool_item(cs, "游戏工具"));
    r.push(tool_item(cs, "其他工具"));
    r
}

} // verus!
