//! The per-run download cache: which URLs were already resolved to a
//! staging path during the current install run.
use vstd::prelude::*;

use crate::paths::str_eq;

verus! {

/// What a URL resolves to in a recorded (URL, staging path) list: the
/// first recorded path, if any.
pub open spec fn ctx_lookup(m: Seq<(String, String)>, url: Seq<char>) -> Option<Seq<char>>
    decreases m.len(),
{
    if m.len() == 0 {
        None
    } else if m[0].0@ == url {
        Some(m[0].1@)
    } else {
        ctx_lookup(m.skip(1), url)
    }
}

/// Recording a new pair changes only the lookup of URLs not yet recorded.
pub proof fn lemma_ctx_lookup_push(m: Seq<(String, String)>, p: (String, String), url: Seq<char>)
    ensures
        ctx_lookup(m.push(p), url) == if ctx_lookup(m, url) is Some {
            ctx_lookup(m, url)
        } else if p.0@ == url {
            Some(p.1@)
        } else {
            None
        },
    decreases m.len(),
{
    if m.len() == 0 {
        assert(m.push(p)[0 as int] == p);
        assert(m.push(p).skip(1) =~= Seq::<(String, String)>::empty());
        assert(ctx_lookup(m.push(p).skip(1), url) is None);
        if p.0@ == url {
            assert(ctx_lookup(m.push(p), url) == Some(p.1@));
        } else {
            assert(ctx_lookup(m.push(p), url) is None);
        }
    } else {
        assert(m.push(p)[0 as int] == m[0 as int]);
        assert(m.push(p).skip(1) =~= m.skip(1).push(p));
        lemma_ctx_lookup_push(m.skip(1), p, url);
        if m[0 as int].0@ == url {
            assert(ctx_lookup(m, url) == Some(m[0 as int].1@));
            assert(ctx_lookup(m.push(p), url) == Some(m.push(p)[0 as int].1@));
        } else {
            assert(ctx_lookup(m, url) == ctx_lookup(m.skip(1), url));
            assert(ctx_lookup(m.push(p), url) == ctx_lookup(m.skip(1).push(p), url));
        }
    }
}

/// Process-scoped cache mapping each source URL encountered within one
/// install run to the staging path already chosen for it, so repeated
/// references reuse one download.
pub struct Context {
    /// URL -> staging path, in first-reference order.
    pub downloaded: Vec<(String, String)>,
}

impl Context {
    /// An empty cache for a fresh install run.
    pub fn new() -> (r: Context)
        ensures
            r.downloaded@ =~= Seq::<(String, String)>::empty(),
    {
        Context { downloaded: Vec::new() }
    }

    /// The staging path already recorded for a URL, if any.
    pub fn get(&self, url: &str) -> (r: Option<String>)
        ensures
            match r {
                Some(p) => ctx_lookup(self.downloaded@, url@) == Some(p@),
                None => ctx_lookup(self.downloaded@, url@) is None,
            },
    {
        let n = self.downloaded.len();
        let mut i: usize = 0;
        proof {
            assert(self.downloaded@.skip(0) =~= self.downloaded@);
        }
        while i < n
            invariant
                i <= n,
                n == self.downloaded@.len(),
                ctx_lookup(self.downloaded@, url@) == ctx_lookup(
                    self.downloaded@.skip(i as int),
                    url@,
                ),
            decreases n - i,
        {
            proof {
                assert(self.downloaded@.skip(i as int)[0] == self.downloaded@[i as int]);
                assert(self.downloaded@.skip(i as int).skip(1) =~= self.downloaded@.skip(
                    i as int + 1,
                ));
            }
            let pair = &self.downloaded[i];
            if str_eq(pair.0.as_str(), url) {
                return Some(pair.1.clone());
            }
            i = i + 1;
        }
        proof {
            assert(self.downloaded@.skip(n as int) =~= Seq::<(String, String)>::empty());
        }
        None
    }

    /// Records the staging path chosen for a URL.
    pub fn insert(&mut self, url: &str, path: &str)
        ensures
            final(self).downloaded@.len() == old(self).downloaded@.len() + 1,
            final(self).downloaded@ == old(self).downloaded@.push(
                (final(self).downloaded@.last().0, final(self).downloaded@.last().1),
            ),
            final(self).downloaded@.last().0@ == url@,
            final(self).downloaded@.last().1@ == path@,
            forall|i: int|
                0 <= i < old(self).downloaded@.len() ==> final(self).downloaded@[i] == old(
                    self,
                ).downloaded@[i],
    {
        self.downloaded.push((url.to_owned(), path.to_owned()));
    }
}

} // verus!
