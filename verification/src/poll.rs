//! The poll cycle: one pass over the tracked items, fed sequentially with
//! fetched page bodies, that recomputes every stock status and detects
//! changes against the stored state.
//!
//! The caller drives the cycle: it asks for the next URL, fetches the body
//! itself, and hands it back. A fetch failure is handled by abandoning the
//! cycle through [`PollCycle::abort`], which returns the collection exactly
//! as it was, so a failed cycle never updates any item.

use vstd::prelude::*;
use crate::model::{InventoryItem, ItemV, items_v};
use crate::rules::{all_hold, rules_wf, evaluate_all};

verus! {

/// An item with its stock status replaced by a freshly computed one.
pub open spec fn apply_flag(it: ItemV, f: bool) -> ItemV {
    ItemV { in_stock: f, ..it }
}

/// The collection after a completed cycle: every item keeps its identity and
/// rules, and takes the status computed for it.
pub open spec fn updated_items(items: Seq<ItemV>, flags: Seq<bool>) -> Seq<ItemV> {
    Seq::new(items.len(), |i: int| apply_flag(items[i], flags[i]))
}

/// A completed cycle counts as changed exactly when some computed status
/// differs from the stored one.
pub open spec fn poll_changed(items: Seq<ItemV>, flags: Seq<bool>) -> bool {
    exists|i: int| 0 <= i < items.len() && items[i].in_stock != flags[i]
}

/// One poll cycle over a collection, processing items in order.
pub struct PollCycle {
    items: Vec<InventoryItem>,
    flags: Vec<bool>,
}

impl PollCycle {
    /// The items the cycle was started with.
    pub closed spec fn items(&self) -> Seq<ItemV> {
        items_v(self.items@)
    }

    /// The statuses computed so far, one per processed item.
    pub closed spec fn flags(&self) -> Seq<bool> {
        self.flags@
    }

    /// How many items have been processed.
    pub open spec fn processed(&self) -> int {
        self.flags().len() as int
    }

    /// How many items the cycle covers.
    pub open spec fn total(&self) -> int {
        self.items().len() as int
    }

    /// The cycle never holds more computed statuses than items.
    pub closed spec fn inv(&self) -> bool {
        self.flags@.len() <= self.items@.len()
    }

    /// Starts a cycle over a collection.
    pub fn start(items: Vec<InventoryItem>) -> (c: PollCycle)
        ensures
            c.inv(),
            c.items() == items_v(items@),
            c.processed() == 0,
    {
        PollCycle { items, flags: Vec::new() }
    }

    /// Whether every item has been processed.
    pub fn is_done(&self) -> (b: bool)
        ensures
            b == (self.processed() == self.total()),
    {
        proof {
            assert(self.items().len() == self.items@.len());
        }
        self.flags.len() == self.items.len()
    }

    /// The URL of the next item to fetch.
    pub fn current_url(&self) -> (u: &String)
        requires
            self.inv(),
            self.processed() < self.total(),
        ensures
            u@ == self.items()[self.processed()].url,
    {
        proof {
            assert(self.items()[self.processed()] == crate::model::item_v(self.items@[self.processed()]));
        }
        &self.items[self.flags.len()].url
    }

    /// Feeds the body fetched for the next item: evaluates the item's rules
    /// against it and records the computed status. Returns false, recording
    /// nothing, exactly when a rule of the item carries a pattern the regex
    /// engine rejects.
    pub fn feed_body(&mut self, body: &str) -> (ok: bool)
        requires
            old(self).inv(),
            old(self).processed() < old(self).total(),
        ensures
            final(self).inv(),
            final(self).items() == old(self).items(),
            ok == rules_wf(old(self).items()[old(self).processed()].matches),
            ok ==> final(self).flags() == old(self).flags().push(
                all_hold(old(self).items()[old(self).processed()].matches, body@)),
            !ok ==> final(self).flags() == old(self).flags(),
    {
        let idx = self.flags.len();
        proof {
            assert(self.items()[idx as int] == crate::model::item_v(self.items@[idx as int]));
        }
        match evaluate_all(&self.items[idx].matches, body) {
            Some(b) => {
                self.flags.push(b);
                true
            },
            None => false,
        }
    }

    /// Abandons the cycle, returning the collection exactly as it was when
    /// the cycle started: a cycle that fails part-way updates no item, not
    /// even one whose body was already fetched.
    pub fn abort(self) -> (r: Vec<InventoryItem>)
        ensures
            items_v(r@) == self.items(),
    {
        self.items
    }

    /// Completes the cycle: returns whether any status changed, and the
    /// collection with every status replaced by the computed one.
    pub fn finish(self) -> (r: (bool, Vec<InventoryItem>))
        requires
            self.inv(),
            self.processed() == self.total(),
        ensures
            r.0 == poll_changed(self.items(), self.flags()),
            items_v(r.1@) == updated_items(self.items(), self.flags()),
    {
        let PollCycle { mut items, flags } = self;
        let ghost orig = items_v(items@);
        let ghost gflags = flags@;
        let mut out: Vec<InventoryItem> = Vec::new();
        let mut changed = false;
        while items.len() > 0
            invariant
                gflags.len() == orig.len(),
                out@.len() + items@.len() == orig.len(),
                flags@ == gflags,
                items_v(items@) == orig.skip(out@.len() as int),
                forall|k: int| 0 <= k < out@.len()
                    ==> crate::model::item_v(#[trigger] out@[k]) == apply_flag(orig[k], gflags[k]),
                changed == (exists|k: int| 0 <= k < out@.len() && orig[k].in_stock != gflags[k]),
            decreases items@.len(),
        {
            let idx = out.len();
            let ghost pre_items = items@;
            let it = items.remove(0);
            proof {
                assert(items@ =~= pre_items.skip(1));
                assert(crate::model::item_v(it) == items_v(pre_items)[0]);
                assert(items_v(pre_items)[0] == orig[idx as int]);
            }
            let f = flags[idx];
            let differs = it.in_stock != f;
            if differs {
                changed = true;
            }
            let ghost pre_out = out@;
            out.push(InventoryItem {
                product: it.product,
                vendor: it.vendor,
                url: it.url,
                in_stock: f,
                matches: it.matches,
            });
            proof {
                assert(crate::model::item_v(out@[idx as int])
                    == apply_flag(orig[idx as int], gflags[idx as int]));
                assert forall|j: int| 0 <= j < items@.len()
                    implies items_v(items@)[j] == orig.skip(out@.len() as int)[j] by {
                    assert(items_v(items@)[j] == crate::model::item_v(pre_items[j + 1]));
                    assert(items_v(pre_items)[j + 1] == orig.skip(idx as int)[j + 1]);
                }
                assert(items_v(items@) =~= orig.skip(out@.len() as int));
                if differs {
                    assert(0 <= idx < out@.len() && orig[idx as int].in_stock != gflags[idx as int]);
                } else if !changed {
                    assert forall|k: int| 0 <= k < out@.len()
                        implies !(orig[k].in_stock != gflags[k]) by {
                        if k < idx as int {
                            assert(!(exists|q: int| 0 <= q < pre_out.len() && orig[q].in_stock != gflags[q]));
                        } else {
                            assert(orig[idx as int].in_stock == gflags[idx as int]);
                        }
                    }
                }
            }
        }
        proof {
            assert(out@.len() == orig.len());
            assert(items_v(out@) =~= updated_items(orig, gflags));
            assert(changed == poll_changed(orig, gflags));
        }
        (changed, out)
    }
}

/// A poll cycle whose computed statuses all equal the stored ones reports no
/// change and leaves the collection equal to what it was, so a caller that
/// gates persistence and notification on the change flag performs neither.
pub proof fn lemma_no_change_no_effect(items: Seq<ItemV>, flags: Seq<bool>)
    requires
        flags.len() == items.len(),
        forall|i: int| 0 <= i < items.len() ==> flags[i] == #[trigger] items[i].in_stock,
    ensures
        !poll_changed(items, flags),
        updated_items(items, flags) == items,
{
    assert forall|i: int| 0 <= i < items.len()
        implies updated_items(items, flags)[i] == items[i] by {
        assert(updated_items(items, flags)[i] =~= items[i]);
    }
    assert(updated_items(items, flags) =~= items);
}

} // verus!
