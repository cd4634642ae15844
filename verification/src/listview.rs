//! The generic list-editing capability: any ordered, selectable list with a
//! one-slot register supplies a few primitive accessors and hooks, and the
//! uniform editing operations (move, cut, paste) are built only on those.

use vstd::prelude::*;

verus! {

/// The contract a concrete editable list must supply.  The primitive
/// accessors expose the items, the selection and the register; the hooks
/// (`normal_mode`, `append_to_current`, `backspace`, `toggle_current`)
/// carry the item-specific editing behaviour.  The provided operations
/// `move_up`, `move_down`, `remove_current` and `paste` are verified once,
/// against this contract alone.
pub trait ListView<T>: Sized {
    /// The items, as a mathematical sequence.
    spec fn items(&self) -> Seq<T>;

    /// The selection index.
    spec fn sel(&self) -> int;

    /// The register slot.
    spec fn reg(&self) -> Option<T>;

    /// What every item a fresh-item refill produces satisfies.
    spec fn item_inv(t: T) -> bool;

    /// The concrete list's own standing invariant; the editing hooks
    /// assume it, since they read item contents.
    spec fn view_inv(&self) -> bool;

    /// The selection as an index.
    fn selection(&self) -> (i: usize)
        ensures
            i as int == self.sel(),
    ;

    /// The number of items.
    fn length(&self) -> (n: usize)
        ensures
            n as int == self.items().len(),
    ;

    /// Moves the selection.
    fn set_selection(&mut self, i: usize)
        ensures
            final(self).sel() == i as int,
            final(self).items() == old(self).items(),
            final(self).reg() == old(self).reg(),
    ;

    /// Removes and returns the item at `i`.
    fn take_at(&mut self, i: usize) -> (t: T)
        requires
            i < old(self).items().len(),
        ensures
            final(self).items() == old(self).items().remove(i as int),
            t == old(self).items()[i as int],
            final(self).sel() == old(self).sel(),
            final(self).reg() == old(self).reg(),
    ;

    /// Inserts an item at `i`.
    fn put_at(&mut self, i: usize, t: T)
        requires
            i <= old(self).items().len(),
        ensures
            final(self).items() == old(self).items().insert(i as int, t),
            final(self).sel() == old(self).sel(),
            final(self).reg() == old(self).reg(),
    ;

    /// Takes the register's content, leaving the slot empty.
    fn take_register(&mut self) -> (t: Option<T>)
        ensures
            t == old(self).reg(),
            final(self).reg() is None,
            final(self).items() == old(self).items(),
            final(self).sel() == old(self).sel(),
    ;

    /// Fills the register, dropping what it held.
    fn set_register(&mut self, t: T)
        ensures
            final(self).reg() == Some(t),
            final(self).items() == old(self).items(),
            final(self).sel() == old(self).sel(),
    ;

    /// A fresh item, used to keep the list populated after the last item
    /// is removed.
    fn fresh_item(&self) -> (t: T)
        ensures
            Self::item_inv(t),
    ;

    /// Hook: leaving edit mode commits the selected item.
    fn normal_mode(&mut self)
        requires
            old(self).view_inv(),
            0 <= old(self).sel() < old(self).items().len(),
    ;

    /// Hook: a typed character is appended to the selected item.
    fn append_to_current(&mut self, chr: char)
        requires
            old(self).view_inv(),
            0 <= old(self).sel() < old(self).items().len(),
    ;

    /// Hook: the last character of the selected item is deleted.
    fn backspace(&mut self)
        requires
            old(self).view_inv(),
            0 <= old(self).sel() < old(self).items().len(),
    ;

    /// Hook: an optional per-item toggle; does nothing by default.
    fn toggle_current(&mut self)
        requires
            old(self).view_inv(),
            0 <= old(self).sel() < old(self).items().len(),
    {
    }

    /// Moves the selection one item up, clamped at the first item.
    fn move_up(&mut self)
        ensures
            final(self).items() == old(self).items(),
            final(self).reg() == old(self).reg(),
            final(self).sel() == if old(self).sel() > 0 {
                old(self).sel() - 1
            } else {
                old(self).sel()
            },
    {
        let i = self.selection();
        if i > 0 {
            self.set_selection(i - 1);
        }
    }

    /// Moves the selection one item down, clamped at the last item.
    fn move_down(&mut self)
        requires
            0 <= old(self).sel() < old(self).items().len(),
        ensures
            final(self).items() == old(self).items(),
            final(self).reg() == old(self).reg(),
            final(self).sel() == if old(self).sel() + 1 < old(self).items().len() {
                old(self).sel() + 1
            } else {
                old(self).sel()
            },
    {
        let i = self.selection();
        let n = self.length();
        if i + 1 < n {
            self.set_selection(i + 1);
        }
    }

    /// Cuts the selected item into the register, overwriting the register's
    /// previous content.  The last remaining item is replaced by a fresh one
    /// rather than leaving the list empty.  The selection is clamped to one
    /// less than before, floored at the first item.
    fn remove_current(&mut self)
        requires
            0 <= old(self).sel() < old(self).items().len(),
        ensures
            final(self).reg() == Some(old(self).items()[old(self).sel()]),
            final(self).sel() == if old(self).sel() > 0 {
                old(self).sel() - 1
            } else {
                0
            },
            old(self).items().len() > 1 ==> final(self).items() == old(self).items().remove(
                old(self).sel(),
            ),
            old(self).items().len() == 1 ==> final(self).items().len() == 1 && Self::item_inv(
                final(self).items()[0],
            ),
    {
        let i = self.selection();
        let t = self.take_at(i);
        self.set_register(t);
        if self.length() == 0 {
            let f = self.fresh_item();
            self.put_at(0, f);
        }
        if i > 0 {
            self.set_selection(i - 1);
        } else {
            self.set_selection(0);
        }
    }

    /// Pastes the register's content as a new item after the selection,
    /// moving the selection onto it and clearing the register; an empty
    /// register changes nothing.
    fn paste(&mut self)
        requires
            0 <= old(self).sel() < old(self).items().len(),
        ensures
            match old(self).reg() {
                Some(t) => final(self).items() == old(self).items().insert(
                    old(self).sel() + 1,
                    t,
                ) && final(self).sel() == old(self).sel() + 1 && final(self).reg() is None,
                None => final(self).items() == old(self).items() && final(self).sel() == old(
                    self,
                ).sel() && final(self).reg() is None,
            },
    {
        let taken = self.take_register();
        match taken {
            Some(t) => {
                let i = self.selection();
                let n = self.length();
                proof {
                    assert(i < n);
                }
                self.put_at(i + 1, t);
                self.set_selection(i + 1);
            },
            None => {},
        }
    }
}

} // verus!
