//! A list of asset loads to wait for.
use vstd::prelude::*;

verus! {

/// Assets whose loads are still being waited on.
pub struct AssetLoadList<H> {
    pending: Vec<H>,
}

impl<H> AssetLoadList<H> {
    /// The handles still waited on, oldest first.
    pub closed spec fn spec_pending(&self) -> Seq<H> {
        self.pending@
    }

    /// An empty list.
    pub fn new() -> (r: Self)
        ensures
            r.spec_pending() == Seq::<H>::empty(),
    {
        AssetLoadList { pending: Vec::new() }
    }

    /// Adds one asset to wait for (its dependencies are not looked at).
    pub fn push(&mut self, asset: H)
        ensures
            final(self).spec_pending() == old(self).spec_pending().push(asset),
    {
        self.pending.push(asset);
    }

    /// The number of assets still waited on.
    pub fn len(&self) -> (r: usize)
        ensures
            r == self.spec_pending().len(),
    {
        self.pending.len()
    }

    /// Prunes the loads that completed, newest first, and stops at the first one that is
    /// still pending. Returns `true` once every asset has loaded.
    pub fn check<F: Fn(&H) -> bool>(&mut self, is_pending: F) -> (r: bool)
        requires
            forall|h: &H| is_pending.requires((h,)),
        ensures
            r ==> final(self).spec_pending().len() == 0,
            r ==> forall|j: int| 0 <= j < old(self).spec_pending().len() ==> call_ensures(is_pending, (&old(self).spec_pending()[j],), false),
            !r ==> {
                let k = final(self).spec_pending().len() - 1;
                &&& 0 <= k < old(self).spec_pending().len()
                &&& final(self).spec_pending() == old(self).spec_pending().take(k + 1)
                &&& call_ensures(is_pending, (&old(self).spec_pending()[k],), true)
                &&& forall|j: int| k < j < old(self).spec_pending().len() ==> call_ensures(is_pending, (&old(self).spec_pending()[j],), false)
            },
            // where the test gives one answer per asset, `true` comes exactly when none is pending
            (forall|h: &H| #![trigger call_ensures(is_pending, (h,), true)]
                !(call_ensures(is_pending, (h,), true) && call_ensures(is_pending, (h,), false)))
                ==> (r <==> forall|j: int| 0 <= j < old(self).spec_pending().len()
                    ==> call_ensures(is_pending, (&old(self).spec_pending()[j],), false)),
    {
        let ghost all = self.pending@;
        loop
            invariant
                forall|h: &H| is_pending.requires((h,)),
                self.pending@ == all.take(self.pending@.len() as int),
                self.pending@.len() <= all.len(),
                all == old(self).pending@,
                forall|j: int| self.pending@.len() <= j < all.len() ==> call_ensures(is_pending, (&all[j],), false),
            decreases self.pending@.len(),
        {
            let ghost before = self.pending@;
            match self.pending.pop() {
                None => {
                    return true;
                },
                Some(handle) => {
                    assert(handle == all[before.len() - 1]);
                    if is_pending(&handle) {
                        self.pending.push(handle);
                        assert(self.pending@ =~= before);
                        return false;
                    }
                    assert(self.pending@ =~= all.take(self.pending@.len() as int));
                },
            }
        }
    }
}

} // verus!
