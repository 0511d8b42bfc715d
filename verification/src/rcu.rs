//! Read-copy-update: readers see the current version of some data, a writer replaces it
//! as a whole and gets the old version back.
use vstd::prelude::*;

verus! {

/// The place where one version of some data is published.
///
/// `P` is an owning pointer to the data, such as a `Box` or an `Arc`.
pub struct RcuHandle<P> {
    current: Option<P>,
    version: u64,
}

impl<P> RcuHandle<P> {
    /// What is published now.
    pub closed spec fn current(&self) -> Option<P> {
        self.current
    }

    /// How many times something has been published, modulo the range of the counter.
    pub closed spec fn publications(&self) -> u64 {
        self.version
    }

    /// A handle at which nothing has been published.
    pub fn empty() -> (handle: Self)
        ensures
            handle.current() is None,
            handle.publications() == 0,
    {
        Self { current: None, version: 0 }
    }

    /// A handle at which `initial` is published.
    pub fn new(initial: P) -> (handle: Self)
        ensures
            handle.current() == Some(initial),
            handle.publications() == 1,
    {
        Self { current: Some(initial), version: 1 }
    }

    /// Reads what is published now.
    pub fn load(&self) -> (current: Option<&P>)
        ensures
            current == (match self.current() {
                Some(pointer) => Some(&pointer),
                None => None,
            }),
    {
        self.current.as_ref()
    }

    /// A number that goes up by one with every publication.
    pub fn version(&self) -> (version: u64)
        ensures
            version == self.publications(),
    {
        self.version
    }

    /// Publishes `new` and hands back what was published before, which the caller now
    /// has to reclaim.
    pub fn swap(&mut self, new: P) -> (retired: Option<P>)
        ensures
            retired == old(self).current(),
            final(self).current() == Some(new),
            final(self).publications() == next_version(old(self).publications()),
            old(self).publications() < u64::MAX ==> final(self).publications()
                == old(self).publications() + 1,
            old(self).publications() == u64::MAX ==> final(self).publications() == 0,
    {
        let retired = self.current.take();
        self.current = Some(new);
        self.version = self.version.wrapping_add(1);
        retired
    }
}

/// The version after `version`. The counter starts again at zero when it is exhausted.
pub open spec fn next_version(version: u64) -> u64 {
    if version == u64::MAX {
        0
    } else {
        (version + 1) as u64
    }
}

/// What comes back when `published` is swapped in, one after the other, where `current`
/// was published before.
pub open spec fn retired_by<P>(current: Option<P>, published: Seq<P>) -> Seq<Option<P>>
    decreases published.len(),
{
    if published.len() == 0 {
        Seq::empty()
    } else {
        seq![current] + retired_by(Some(published[0]), published.skip(1))
    }
}

/// Every version is handed back exactly once, in the order of publication, except the
/// one that is still published.
pub proof fn law_each_version_retires_once<P>(current: Option<P>, published: Seq<P>)
    ensures
        retired_by(current, published).len() == published.len(),
        forall|i: int|
            0 <= i < published.len() ==> #[trigger] retired_by(current, published)[i] == if i == 0 {
                current
            } else {
                Some(published[i - 1])
            },
    decreases published.len(),
{
    if published.len() > 0 {
        let rest = published.skip(1);
        law_each_version_retires_once(Some(published[0]), rest);
        assert forall|i: int| 0 <= i < published.len() implies #[trigger] retired_by(
            current,
            published,
        )[i] == (if i == 0 {
            current
        } else {
            Some(published[i - 1])
        }) by {
            if i > 0 {
                assert(retired_by(current, published)[i] == retired_by(
                    Some(published[0]),
                    rest,
                )[i - 1]);
            }
        }
    }
}

} // verus!
