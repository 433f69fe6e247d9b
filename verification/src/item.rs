//! Candidate entries of the launcher catalog.
//!
//! An item is identified by its `name` alone: two items with equal names are
//! the same ranking entity even if their metadata differs.  Each source kind
//! gets its own variant instead of one record with many optional fields.

use vstd::prelude::*;

verus! {

/// One candidate entry, tagged by the source it came from.
///
/// File locations are carried as plain strings; the surrounding program
/// converts them to paths when it launches the selection.
pub enum Item {
    /// An executable found on the search path.
    PathEntry { name: String, file: String },
    /// A desktop application entry.
    DesktopEntry {
        name: String,
        file: String,
        exec_cmd: Option<String>,
        icon: Option<String>,
        work_dir: Option<String>,
        hidden: bool,
    },
    /// Free text typed by the user when no catalog entry matched.
    FreeText { name: String },
}

/// The mathematical value of an [`Item`]: every string as a `Seq<char>`.
pub enum ItemModel {
    PathEntry { name: Seq<char>, file: Seq<char> },
    DesktopEntry {
        name: Seq<char>,
        file: Seq<char>,
        exec_cmd: Option<Seq<char>>,
        icon: Option<Seq<char>>,
        work_dir: Option<Seq<char>>,
        hidden: bool,
    },
    FreeText { name: Seq<char> },
}

pub open spec fn opt_view(o: Option<String>) -> Option<Seq<char>> {
    match o {
        Option::Some(s) => Option::Some(s@),
        Option::None => Option::None,
    }
}

impl View for Item {
    type V = ItemModel;

    open spec fn view(&self) -> ItemModel {
        match self {
            Item::PathEntry { name, file } => ItemModel::PathEntry { name: name@, file: file@ },
            Item::DesktopEntry { name, file, exec_cmd, icon, work_dir, hidden } => {
                ItemModel::DesktopEntry {
                    name: name@,
                    file: file@,
                    exec_cmd: opt_view(*exec_cmd),
                    icon: opt_view(*icon),
                    work_dir: opt_view(*work_dir),
                    hidden: *hidden,
                }
            },
            Item::FreeText { name } => ItemModel::FreeText { name: name@ },
        }
    }
}

impl DeepView for Item {
    type V = ItemModel;

    open spec fn deep_view(&self) -> ItemModel {
        self.view()
    }
}

/// The display key of an item; identity for ranking and filtering.
pub open spec fn name_of(it: ItemModel) -> Seq<char> {
    match it {
        ItemModel::PathEntry { name, .. } => name,
        ItemModel::DesktopEntry { name, .. } => name,
        ItemModel::FreeText { name } => name,
    }
}

fn clone_opt(o: &Option<String>) -> (r: Option<String>)
    ensures
        opt_view(r) == opt_view(*o),
{
    match o {
        Option::Some(s) => Option::Some(s.clone()),
        Option::None => Option::None,
    }
}

impl Item {
    /// The display key of this item.
    pub fn name(&self) -> (r: &str)
        ensures
            r@ == name_of(self@),
    {
        match self {
            Item::PathEntry { name, .. } => name.as_str(),
            Item::DesktopEntry { name, .. } => name.as_str(),
            Item::FreeText { name } => name.as_str(),
        }
    }

    /// An item with the same value; used where a selection is handed out
    /// while the catalog keeps its copy.
    pub fn duplicate(&self) -> (r: Item)
        ensures
            r@ == self@,
    {
        match self {
            Item::PathEntry { name, file } => Item::PathEntry {
                name: name.clone(),
                file: file.clone(),
            },
            Item::DesktopEntry { name, file, exec_cmd, icon, work_dir, hidden } => {
                Item::DesktopEntry {
                    name: name.clone(),
                    file: file.clone(),
                    exec_cmd: clone_opt(exec_cmd),
                    icon: clone_opt(icon),
                    work_dir: clone_opt(work_dir),
                    hidden: *hidden,
                }
            },
            Item::FreeText { name } => Item::FreeText { name: name.clone() },
        }
    }
}

} // verus!
