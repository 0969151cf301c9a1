//! The global-string resolver: a table of named module-level string constants,
//! injected as a read-only capability so the extractor never reaches into
//! externally owned compiler state and stays testable with synthetic tables.
//!
//! Each entry carries either the decoded text of the constant's initializer or
//! the failure its interpretation produced; a name with no entry at all
//! resolves to `NotFound`.

use vstd::prelude::*;

verus! {

/// Failure kinds of resolving a named global string constant.
#[derive(Clone, Copy, PartialEq, Eq, Debug)]
pub enum ResolveError {
    /// The name has no corresponding global constant, or the global lacks an
    /// initializer.
    NotFound,
    /// The initializer is not shaped as a fixed-length character array.
    ShapeError,
    /// The initializer's bytes do not decode as text.
    DecodeError,
}

/// What a table holds for one name: the constant's text, or the failure that
/// interpreting its initializer produced.
pub type ResolveOutcome = Result<Vec<u8>, ResolveError>;

/// Resolution over the table's view: the outcome of the first entry bearing
/// `name`, and `NotFound` when none does.
pub open spec fn spec_resolve(
    t: Seq<(Seq<u8>, Result<Seq<u8>, ResolveError>)>,
    name: Seq<u8>,
) -> Result<Seq<u8>, ResolveError>
    decreases t.len(),
{
    if t.len() == 0 {
        Err(ResolveError::NotFound)
    } else if t[0].0 == name {
        t[0].1
    } else {
        spec_resolve(t.drop_first(), name)
    }
}

/// Byte-for-byte equality of two byte strings.
pub fn bytes_eq(a: &[u8], b: &[u8]) -> (r: bool)
    ensures
        r == (a@ == b@),
{
    if a.len() != b.len() {
        return false;
    }
    let mut i: usize = 0;
    while i < a.len()
        invariant
            i <= a.len(),
            a@.len() == b@.len(),
            forall|k: int| 0 <= k < i ==> a@[k] == #[trigger] b@[k],
        decreases a.len() - i,
    {
        if a[i] != b[i] {
            return false;
        }
        i = i + 1;
    }
    proof {
        assert(a@ =~= b@);
    }
    true
}

/// A table of global string constants, keyed by entity name.
pub struct GlobalTable {
    entries: Vec<(Vec<u8>, ResolveOutcome)>,
}

impl View for GlobalTable {
    type V = Seq<(Seq<u8>, Result<Seq<u8>, ResolveError>)>;

    closed spec fn view(&self) -> Seq<(Seq<u8>, Result<Seq<u8>, ResolveError>)> {
        Seq::new(
            self.entries@.len(),
            |i: int|
                (
                    self.entries@[i].0@,
                    match self.entries@[i].1 {
                        Ok(v) => Ok(v@),
                        Err(e) => Err(e),
                    },
                ),
        )
    }
}

impl GlobalTable {
    /// An empty table: every name resolves to `NotFound`.
    pub fn new() -> (r: GlobalTable)
        ensures
            r@ == Seq::<(Seq<u8>, Result<Seq<u8>, ResolveError>)>::empty(),
    {
        let r = GlobalTable { entries: Vec::new() };
        proof {
            assert(r@ =~= Seq::<(Seq<u8>, Result<Seq<u8>, ResolveError>)>::empty());
        }
        r
    }

    /// Records that the constant `name` decodes to `text`.
    pub fn define(&mut self, name: Vec<u8>, text: Vec<u8>)
        ensures
            final(self)@ == old(self)@.push((name@, Ok(text@))),
    {
        let ghost old_view = self@;
        let ghost n = name@;
        let ghost t = text@;
        self.entries.push((name, Ok(text)));
        proof {
            assert(self@ =~= old_view.push((n, Ok(t))));
        }
    }

    /// Records that the constant `name` exists but its interpretation failed
    /// with `fault`.
    pub fn define_fault(&mut self, name: Vec<u8>, fault: ResolveError)
        ensures
            final(self)@ == old(self)@.push((name@, Err(fault))),
    {
        let ghost old_view = self@;
        let ghost n = name@;
        self.entries.push((name, Err(fault)));
        proof {
            assert(self@ =~= old_view.push((n, Err(fault))));
        }
    }

    /// Resolves `name` to the decoded text of the global constant it
    /// designates, or to the failure recorded for it; `NotFound` when the
    /// table holds no entry for it.
    pub fn resolve(&self, name: &[u8]) -> (r: Result<Vec<u8>, ResolveError>)
        ensures
            match r {
                Ok(v) => spec_resolve(self@, name@) == Ok::<Seq<u8>, ResolveError>(v@),
                Err(e) => spec_resolve(self@, name@) == Err::<Seq<u8>, ResolveError>(e),
            },
    {
        let mut k: usize = 0;
        proof {
            assert(self@.skip(0) =~= self@);
        }
        while k < self.entries.len()
            invariant
                k <= self.entries.len(),
                self@.len() == self.entries.len(),
                spec_resolve(self@, name@) == spec_resolve(self@.skip(k as int), name@),
            decreases self.entries.len() - k,
        {
            let entry_name: &Vec<u8> = &self.entries[k].0;
            proof {
                assert(self@.skip(k as int)[0] == self@[k as int]);
                assert(self@.skip(k as int).drop_first() =~= self@.skip(k as int + 1));
            }
            if bytes_eq(entry_name.as_slice(), name) {
                assert(self@[k as int].0 == name@);
                match &self.entries[k].1 {
                    Ok(v) => {
                        let out = vstd::slice::slice_to_vec(v.as_slice());
                        assert(self@[k as int].1 == Ok::<Seq<u8>, ResolveError>(out@));
                        return Ok(out);
                    },
                    Err(e) => {
                        return Err(*e);
                    },
                }
            }
            k = k + 1;
        }
        proof {
            assert(self@.skip(k as int) =~= Seq::<(Seq<u8>, Result<Seq<u8>, ResolveError>)>::empty());
        }
        Err(ResolveError::NotFound)
    }
}

} // verus!
