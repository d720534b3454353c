//! The variable substitution engine.
//!
//! A template may hold placeholders of the shape `$name`, where a name is a
//! maximal run of letters, digits and underscores. A recognized placeholder
//! is replaced by the variable's value; an unrecognized one stays as
//! literal text, so partial configuration is tolerated.

use vstd::prelude::*;

use crate::bytemap::ByteMap;
use crate::bytestr::copy_bytes;

verus! {

/// The dollar sign that opens a placeholder.
pub const DOLLAR: u8 = 36;

/// Whether a byte may stand in a variable name.
pub open spec fn is_ident_byte(b: u8) -> bool {
    (48 <= b <= 57) || (65 <= b <= 90) || (97 <= b <= 122) || b == 95
}

/// The length of the leading run of name bytes.
pub open spec fn ident_len(t: Seq<u8>) -> int
    decreases t.len(),
{
    if t.len() == 0 || !is_ident_byte(t[0]) {
        0
    } else {
        1 + ident_len(t.skip(1))
    }
}

/// The leading name run lies within the string, is made of name bytes, and
/// is maximal.
pub proof fn lemma_ident_len(t: Seq<u8>)
    ensures
        0 <= ident_len(t) <= t.len(),
        forall|k: int| 0 <= k < ident_len(t) ==> is_ident_byte(t[k]),
        ident_len(t) < t.len() ==> !is_ident_byte(t[ident_len(t)]),
    decreases t.len(),
{
    if t.len() > 0 && is_ident_byte(t[0]) {
        lemma_ident_len(t.skip(1));
        assert forall|k: int| 0 <= k < ident_len(t) implies is_ident_byte(t[k]) by {
            if k > 0 {
                assert(t.skip(1)[k - 1] == t[k]);
            }
        }
        if ident_len(t) < t.len() {
            assert(t.skip(1)[ident_len(t) - 1] == t[ident_len(t)]);
        }
    }
}

/// A counted run of name bytes that is maximal has the leading run's length.
pub proof fn lemma_ident_len_exact(t: Seq<u8>, l: int)
    requires
        0 <= l <= t.len(),
        forall|k: int| 0 <= k < l ==> is_ident_byte(t[k]),
        l < t.len() ==> !is_ident_byte(t[l]),
    ensures
        ident_len(t) == l,
    decreases t.len(),
{
    if l == 0 {
    } else {
        assert(is_ident_byte(t[0]));
        assert forall|k: int| 0 <= k < l - 1 implies is_ident_byte(t.skip(1)[k]) by {
            assert(t.skip(1)[k] == t[k + 1]);
        }
        if l - 1 < t.skip(1).len() {
            assert(t.skip(1)[l - 1] == t[l]);
        }
        lemma_ident_len_exact(t.skip(1), l - 1);
    }
}

/// The template with every recognized placeholder replaced by its value.
pub open spec fn subst(vars: Map<Seq<u8>, Seq<u8>>, t: Seq<u8>) -> Seq<u8>
    decreases t.len(),
    via subst_decreases
{
    if t.len() == 0 {
        Seq::empty()
    } else if t[0] == DOLLAR && ident_len(t.skip(1)) > 0 && vars.contains_key(
        t.skip(1).take(ident_len(t.skip(1))),
    ) {
        vars[t.skip(1).take(ident_len(t.skip(1)))] + subst(vars, t.skip(1 + ident_len(t.skip(1))))
    } else {
        seq![t[0]] + subst(vars, t.skip(1))
    }
}

#[via_fn]
proof fn subst_decreases(vars: Map<Seq<u8>, Seq<u8>>, t: Seq<u8>) {
    if t.len() > 0 {
        lemma_ident_len(t.skip(1));
    }
}

/// A set of named byte-string values.
pub struct VariableReplace {
    map: ByteMap,
}

impl View for VariableReplace {
    type V = Map<Seq<u8>, Seq<u8>>;

    closed spec fn view(&self) -> Map<Seq<u8>, Seq<u8>> {
        self.map@
    }
}

impl VariableReplace {
    /// The representation invariant.
    pub closed spec fn wf(&self) -> bool {
        self.map.wf()
    }

    /// An empty variable set.
    pub fn new() -> (r: VariableReplace)
        ensures
            r.wf(),
            r@ == Map::<Seq<u8>, Seq<u8>>::empty(),
    {
        VariableReplace { map: ByteMap::new() }
    }

    /// Binds a name, overriding an earlier binding.
    pub fn add(&mut self, name: &[u8], value: &[u8]) -> (nothing: ())
        requires
            old(self).wf(),
        ensures
            final(self).wf(),
            final(self)@ == old(self)@.insert(name@, value@),
    {
        self.map.set(name, copy_bytes(value));
    }

    /// Looks a name up.
    pub fn get(&self, name: &[u8]) -> (r: Option<&Vec<u8>>)
        requires
            self.wf(),
        ensures
            match r {
                Some(v) => self@.contains_key(name@) && self@[name@] == v@,
                None => !self@.contains_key(name@),
            },
    {
        self.map.get(name)
    }

    /// An independent copy, so per-operation variables can be added without
    /// touching the shared base set.
    pub fn duplicate(&self) -> (r: VariableReplace)
        requires
            self.wf(),
        ensures
            r.wf(),
            r@ == self@,
    {
        VariableReplace { map: self.map.duplicate() }
    }

    /// Expands every recognized placeholder of the template.
    pub fn apply(&self, template: &[u8]) -> (r: Vec<u8>)
        requires
            self.wf(),
        ensures
            r@ == subst(self@, template@),
    {
        let ghost vm = self@;
        let t = template;
        let mut out: Vec<u8> = Vec::new();
        let mut i: usize = 0;
        proof {
            assert(t@.skip(0) =~= t@);
        }
        while i < t.len()
            invariant
                self.wf(),
                vm == self@,
                i <= t.len(),
                out@ + subst(vm, t@.skip(i as int)) == subst(vm, t@),
            decreases t.len() - i,
        {
            let ghost suffix = t@.skip(i as int);
            let ghost pre = out@;
            assert(suffix[0] == t@[i as int]);
            proof {
                assert(suffix.skip(1) =~= t@.skip(i + 1));
            }
            let b = t[i];
            let mut replaced = false;
            if b == DOLLAR {
                // Measure the name run after the dollar sign.
                let mut l: usize = 0;
                while i + 1 + l < t.len() && is_ident_exec(t[i + 1 + l])
                    invariant
                        i + 1 + l <= t.len(),
                        forall|k: int| 0 <= k < l ==> is_ident_byte(#[trigger] t@[i + 1 + k]),
                    decreases t.len() - i - 1 - l,
                {
                    l += 1;
                }
                proof {
                    assert forall|k: int| 0 <= k < l implies is_ident_byte(suffix.skip(1)[k]) by {
                        assert(suffix.skip(1)[k] == t@[i + 1 + k]);
                    }
                    if l < suffix.skip(1).len() {
                        assert(suffix.skip(1)[l as int] == t@[i + 1 + l]);
                    }
                    lemma_ident_len_exact(suffix.skip(1), l as int);
                }
                if l > 0 {
                    let name = vstd::slice::slice_subrange(t, i + 1, i + 1 + l);
                    proof {
                        assert(name@ =~= suffix.skip(1).take(l as int));
                    }
                    match self.map.get(name) {
                        Some(v) => {
                            out.extend_from_slice(v.as_slice());
                            proof {
                                assert(suffix.skip(1 + l) =~= t@.skip(i + 1 + l));
                                assert(subst(vm, suffix) == vm[name@] + subst(
                                    vm,
                                    t@.skip(i + 1 + l),
                                ));
                                assert(out@ =~= pre + vm[name@]);
                                assert(out@ + subst(vm, t@.skip(i + 1 + l)) =~= pre + subst(
                                    vm,
                                    suffix,
                                ));
                            }
                            i = i + 1 + l;
                            replaced = true;
                        },
                        None => {},
                    }
                }
            }
            if !replaced {
                out.push(b);
                proof {
                    assert(subst(vm, suffix) == seq![t@[i as int]] + subst(vm, t@.skip(i + 1)));
                    assert(out@ =~= pre + seq![t@[i as int]]);
                    assert(out@ + subst(vm, t@.skip(i + 1)) =~= pre + subst(vm, suffix));
                }
                i = i + 1;
            }
        }
        proof {
            assert(t@.skip(t@.len() as int) =~= Seq::<u8>::empty());
            assert(out@ + Seq::<u8>::empty() =~= out@);
        }
        out
    }
}

/// Tests whether a byte may stand in a variable name.
pub fn is_ident_exec(b: u8) -> (r: bool)
    ensures
        r == is_ident_byte(b),
{
    (48 <= b && b <= 57) || (65 <= b && b <= 90) || (97 <= b && b <= 122) || b == 95
}

} // verus!
