use vstd::prelude::*;

verus! {

/// One entry of the front end's menu.
#[derive(Clone, Copy, PartialEq, Eq, Structural, Debug)]
pub enum Item {
    Run,
    TaskInfo,
    AddTask,
    RemoveTask,
}

/// The word shown for each menu item.
pub open spec fn item_label(i: Item) -> Seq<char> {
    match i {
        Item::AddTask => "AddTask"@,
        Item::RemoveTask => "RemoveTask"@,
        Item::TaskInfo => "TaskInfo"@,
        Item::Run => "Run"@,
    }
}

impl Item {
    /// The word shown for this menu item.
    pub fn label(&self) -> (s: &'static str)
        ensures
            s@ == item_label(*self),
    {
        match self {
            Item::AddTask => "AddTask",
            Item::RemoveTask => "RemoveTask",
            Item::TaskInfo => "TaskInfo",
            Item::Run => "Run",
        }
    }
}

/// A list of menu items with one selected position; moving the
/// selection wraps around at either end.
pub struct SelectList {
    pub item_list: Vec<Item>,
    pub idx: usize,
}

impl SelectList {
    /// A selection over the given items, starting at the first.
    pub fn new(item_list: Vec<Item>) -> (s: SelectList)
        ensures
            s.item_list@ == item_list@,
            s.idx == 0,
    {
        SelectList { item_list, idx: 0 }
    }

    /// Move the selection up by one, wrapping to the bottom from the
    /// top.
    pub fn select_up(&mut self)
        requires
            old(self).idx < old(self).item_list@.len(),
        ensures
            final(self).item_list@ == old(self).item_list@,
            final(self).idx == (if old(self).idx == 0 {
                old(self).item_list@.len() - 1
            } else {
                old(self).idx - 1
            }),
            final(self).idx < final(self).item_list@.len(),
    {
        if self.idx == 0 {
            self.idx = self.item_list.len() - 1;
        } else {
            self.idx = self.idx - 1;
        }
    }

    /// Move the selection down by one, wrapping to the top from the
    /// bottom.
    pub fn select_down(&mut self)
        requires
            old(self).idx < old(self).item_list@.len(),
        ensures
            final(self).item_list@ == old(self).item_list@,
            final(self).idx == (if old(self).idx == old(self).item_list@.len() - 1 {
                0int
            } else {
                old(self).idx + 1
            }),
            final(self).idx < final(self).item_list@.len(),
    {
        if self.idx == self.item_list.len() - 1 {
            self.idx = 0;
        } else {
            self.idx = self.idx + 1;
        }
    }
}

/// A message box shown over the front end.
#[derive(Debug)]
pub struct Popup {
    pub title: String,
    pub content: String,
}

impl Popup {
    /// A popup with the given title and content.
    pub fn new(title: String, content: String) -> (p: Popup)
        ensures
            p.title == title,
            p.content == content,
    {
        Popup { title, content }
    }
}

} // verus!
