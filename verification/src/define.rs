//! Preprocessor macro definitions: a named body with positional
//! parameters, expanded by textual substitution. Substitution replaces
//! longer parameter names first, so a parameter whose name contains a
//! shorter one is never clobbered by it.

use vstd::prelude::*;

verus! {

/// A fault in macro handling.
#[derive(Clone, Copy, Debug, PartialEq, Eq, Structural)]
pub enum MacroError {
    /// A parameter name that is not, or already is, among the macro's
    /// parameters.
    UnknownMacroParameter,
    /// No macro of that name exists.
    UnknownMacro,
    /// A parameter of that name already exists.
    MacroParameterExists,
    /// A macro of that name already exists.
    MacroExists,
    /// A call with the wrong number of arguments: the count given, and the
    /// count expected.
    InvalidParameterCount(usize, usize),
    /// A parameter name the rules refuse.
    InvalidMacroParameterName,
}

/// A fault while running the preprocessor proper.
#[derive(Clone, Copy, Debug, PartialEq, Eq, Structural)]
pub enum PreprocessError {
    /// A directive that is none of the known ones.
    InvalidDirective,
    /// A token that cannot stand where it was found.
    InvalidToken,
    /// A conditional block was never closed.
    MissingEndIf,
    /// A conditional block with more than one alternative.
    MultipleElseDirectives,
    /// An include with an empty path.
    EmptyInclude,
    /// A block end with no open block.
    WierdEndif,
    /// An alternative with no open block.
    WierdElse,
    /// The macro machinery failed.
    Macro(MacroError),
    /// The underlying stream failed.
    Stream,
}

/// Replace every occurrence of `needle` in `hay` by `rep`, left to right
/// and without rescanning what was substituted. An empty needle changes
/// nothing.
pub open spec fn replace_spec(hay: Seq<u8>, needle: Seq<u8>, rep: Seq<u8>) -> Seq<u8>
    decreases hay.len(),
{
    if needle.len() == 0 || hay.len() < needle.len() {
        hay
    } else if hay.take(needle.len() as int) == needle {
        rep + replace_spec(hay.skip(needle.len() as int), needle, rep)
    } else {
        hay.take(1) + replace_spec(hay.skip(1), needle, rep)
    }
}

/// Whether a byte string occurs among a list of names.
pub open spec fn contains_name(names: Seq<Vec<u8>>, name: Seq<u8>) -> bool {
    exists|i: int| 0 <= i < names.len() && names[i]@ == name
}

/// Replace every occurrence of `needle` in `hay` by `rep`.
pub fn replace_bytes(hay: &Vec<u8>, needle: &Vec<u8>, rep: &Vec<u8>) -> (r: Vec<u8>)
    ensures
        r@ == replace_spec(hay@, needle@, rep@),
{
    let mut out: Vec<u8> = Vec::new();
    if needle.len() == 0 {
        let mut i: usize = 0;
        while i < hay.len()
            invariant
                i <= hay@.len(),
                out@ =~= hay@.take(i as int),
            decreases hay@.len() - i,
        {
            out.push(hay[i]);
            i = i + 1;
        }
        proof {
            assert(hay@.take(hay@.len() as int) =~= hay@);
        }
        return out;
    }
    let mut i: usize = 0;
    let hlen = hay.len();
    proof {
        assert(hay@.skip(0) =~= hay@);
        assert(Seq::<u8>::empty() + replace_spec(hay@, needle@, rep@) =~= replace_spec(
            hay@,
            needle@,
            rep@,
        ));
    }
    while i < hay.len()
        invariant
            i <= hay@.len(),
            hlen == hay@.len(),
            needle@.len() >= 1,
            replace_spec(hay@, needle@, rep@) == out@ + replace_spec(
                hay@.skip(i as int),
                needle@,
                rep@,
            ),
        decreases hay@.len() - i,
    {
        let ghost rem = hay@.skip(i as int);
        // Does the needle start here?
        let mut matches = false;
        if needle.len() <= hay.len() - i {
            let mut k: usize = 0;
            let mut all = true;
            while k < needle.len() && all
                invariant
                    k <= needle@.len(),
                    needle@.len() <= hay@.len() - i,
                    i <= hay@.len(),
                    hlen == hay@.len(),
                    all ==> forall|j: int| 0 <= j < k ==> hay@[i + j] == needle@[j],
                    !all ==> k < needle@.len() && hay@[i + k] != needle@[k as int],
                decreases needle@.len() - k, (if all { 1int } else { 0int }),
            {
                if hay[i + k] != needle[k] {
                    all = false;
                } else {
                    k = k + 1;
                }
            }
            matches = all && k == needle.len();
        }
        proof {
            if matches {
                assert(rem.take(needle@.len() as int) =~= needle@);
            } else {
                if rem.len() >= needle@.len() && rem.take(needle@.len() as int) == needle@ {
                    assert forall|j: int| 0 <= j < needle@.len() implies #[trigger] hay@[i + j]
                        == needle@[j] by {
                        assert(rem.take(needle@.len() as int)[j] == rem[j]);
                    }
                    assert(false);
                }
            }
        }
        if matches {
            let mut k: usize = 0;
            while k < rep.len()
                invariant
                    k <= rep@.len(),
                    replace_spec(hay@, needle@, rep@) == out@.take(out@.len() - k) + replace_spec(
                        hay@.skip(i as int),
                        needle@,
                        rep@,
                    ),
                    out@.len() >= k,
                    out@.skip(out@.len() - k) =~= rep@.take(k as int),
                decreases rep@.len() - k,
            {
                out.push(rep[k]);
                k = k + 1;
                proof {
                    assert(out@.take(out@.len() - k) =~= out@.take(out@.len() - 1).take(out@.len()
                        - k));
                }
            }
            proof {
                assert(out@.skip(out@.len() - rep@.len()) =~= rep@);
                assert(out@ =~= out@.take(out@.len() - rep@.len()) + rep@);
                assert(rem.skip(needle@.len() as int) =~= hay@.skip(i + needle@.len()));
                assert(replace_spec(rem, needle@, rep@) == rep@ + replace_spec(
                    hay@.skip(i + needle@.len()),
                    needle@,
                    rep@,
                ));
                assert(out@.take(out@.len() - rep@.len()) + (rep@ + replace_spec(
                    hay@.skip(i + needle@.len()),
                    needle@,
                    rep@,
                )) =~= out@ + replace_spec(hay@.skip(i + needle@.len()), needle@, rep@));
            }
            i = i + needle.len();
        } else {
            let ghost out0 = out@;
            out.push(hay[i]);
            proof {
                assert(rem.take(1) =~= seq![hay@[i as int]]);
                assert(rem.skip(1) =~= hay@.skip(i as int + 1));
                assert(replace_spec(rem, needle@, rep@) == rem.take(1) + replace_spec(
                    hay@.skip(i as int + 1),
                    needle@,
                    rep@,
                ));
                assert(out0 + (rem.take(1) + replace_spec(hay@.skip(i as int + 1), needle@, rep@))
                    =~= out@ + replace_spec(hay@.skip(i as int + 1), needle@, rep@));
            }
            i = i + 1;
        }
    }
    proof {
        assert(hay@.skip(hay@.len() as int) =~= Seq::<u8>::empty());
        assert(out@ + replace_spec(Seq::<u8>::empty(), needle@, rep@) =~= out@);
    }
    out
}

/// Parameter names paired with their positional index.
pub open spec fn indexed(ps: Seq<Seq<u8>>) -> Seq<(Seq<u8>, int)> {
    Seq::new(ps.len(), |i: int| (ps[i], i))
}

/// Insert one indexed name into a list sorted by falling name length,
/// before the first name that is not longer; among equal lengths the new
/// name goes first, which makes the sort stable.
pub open spec fn insert_desc(x: (Seq<u8>, int), s: Seq<(Seq<u8>, int)>) -> Seq<(Seq<u8>, int)>
    decreases s.len(),
{
    if s.len() == 0 {
        seq![x]
    } else if x.0.len() >= s[0].0.len() {
        seq![x] + s
    } else {
        seq![s[0]] + insert_desc(x, s.skip(1))
    }
}

/// Stable sort by falling name length, by insertion.
pub open spec fn sort_desc(s: Seq<(Seq<u8>, int)>) -> Seq<(Seq<u8>, int)>
    decreases s.len(),
{
    if s.len() == 0 {
        Seq::empty()
    } else {
        insert_desc(s[0], sort_desc(s.skip(1)))
    }
}

/// The indexed names an index order stands for.
pub open spec fn order_view(order: Seq<usize>, pv: Seq<Seq<u8>>) -> Seq<(Seq<u8>, int)> {
    order.map(|_i: int, oi: usize| (pv[oi as int], oi as int))
}

/// Apply a list of substitutions in order: each indexed name is replaced
/// by the argument at its index.
pub open spec fn apply_all(cur: Seq<u8>, ps: Seq<(Seq<u8>, int)>, args: Seq<Seq<u8>>) -> Seq<u8>
    decreases ps.len(),
{
    if ps.len() == 0 {
        cur
    } else {
        apply_all(
            replace_spec(
                cur,
                ps[0].0,
                if 0 <= ps[0].1 < args.len() {
                    args[ps[0].1]
                } else {
                    Seq::empty()
                },
            ),
            ps.skip(1),
            args,
        )
    }
}

/// Where insertion lands: past the strictly longer names, before the rest.
proof fn lemma_insert_desc_at(x: (Seq<u8>, int), s: Seq<(Seq<u8>, int)>, at: int)
    requires
        0 <= at <= s.len(),
        forall|j: int| 0 <= j < at ==> (#[trigger] s[j]).0.len() > x.0.len(),
        at < s.len() ==> s[at].0.len() <= x.0.len(),
    ensures
        insert_desc(x, s) == s.take(at) + seq![x] + s.skip(at),
    decreases at,
{
    if at == 0 {
        if s.len() == 0 {
            assert(s.take(0) + seq![x] + s.skip(0) =~= seq![x]);
        } else {
            assert(s.take(0) + seq![x] + s.skip(0) =~= seq![x] + s);
        }
    } else {
        lemma_insert_desc_at(x, s.skip(1), at - 1);
        assert(s.skip(1).take(at - 1) =~= s.take(at).skip(1));
        assert(s.skip(1).skip(at - 1) =~= s.skip(at));
        assert(seq![s[0]] + (s.skip(1).take(at - 1) + seq![x] + s.skip(at)) =~= s.take(at) + seq![
            x,
        ] + s.skip(at));
    }
}

/// One macro: its parameter names, its body, and how many expansions have
/// blocked it against recursion.
pub struct Macro {
    pub params: Vec<Vec<u8>>,
    pub contents: Vec<u8>,
    pub blocked: u32,
}

/// The parameter names of a macro as byte strings.
pub open spec fn params_view(params: Seq<Vec<u8>>) -> Seq<Seq<u8>> {
    params.map(|_i: int, p: Vec<u8>| p@)
}

impl Macro {
    /// A macro from its parts, unblocked.
    pub fn create_simple(params: Vec<Vec<u8>>, contents: Vec<u8>) -> (r: Macro)
        ensures
            r.params@ == params@,
            r.contents@ == contents@,
            r.blocked == 0,
    {
        Macro { params, contents, blocked: 0 }
    }

    /// Whether the macro takes parameters.
    pub fn takes_params(&self) -> (r: bool)
        ensures
            r == (self.params@.len() != 0),
    {
        self.params.len() != 0
    }

    /// Drop all parameters.
    pub fn remove_params(&mut self)
        ensures
            final(self).params@.len() == 0,
            final(self).contents@ == old(self).contents@,
            final(self).blocked == old(self).blocked,
    {
        self.params.clear();
    }

    /// Block the macro against one more level of expansion.
    pub fn block(&mut self)
        ensures
            final(self).blocked == (if old(self).blocked < u32::MAX {
                old(self).blocked + 1
            } else {
                old(self).blocked as int
            }),
            final(self).params@ == old(self).params@,
            final(self).contents@ == old(self).contents@,
    {
        if self.blocked < u32::MAX {
            self.blocked = self.blocked + 1;
        }
    }

    /// Release one level of blocking; never below zero.
    pub fn unblock(&mut self)
        ensures
            final(self).blocked == (if old(self).blocked > 0 {
                old(self).blocked - 1
            } else {
                0int
            }),
            final(self).params@ == old(self).params@,
            final(self).contents@ == old(self).contents@,
    {
        if self.blocked > 0 {
            self.blocked = self.blocked - 1;
        }
    }

    /// Whether the macro is currently blocked.
    pub fn blocked(&self) -> (r: bool)
        ensures
            r == (self.blocked != 0),
    {
        self.blocked != 0
    }

    /// Add a parameter name; a name already present is refused.
    pub fn bind_param(&mut self, param_name: Vec<u8>) -> (r: Result<(), MacroError>)
        ensures
            contains_name(old(self).params@, param_name@) ==> r == Err::<(), MacroError>(
                MacroError::UnknownMacroParameter,
            ) && final(self).params@ == old(self).params@,
            !contains_name(old(self).params@, param_name@) ==> r is Ok && final(self).params@
                == old(self).params@.push(param_name),
            final(self).contents@ == old(self).contents@,
            final(self).blocked == old(self).blocked,
    {
        if self.contains_param(&param_name) {
            Err(MacroError::UnknownMacroParameter)
        } else {
            self.params.push(param_name);
            Ok(())
        }
    }

    /// Whether a name is among the parameters.
    fn contains_param(&self, name: &Vec<u8>) -> (r: bool)
        ensures
            r == contains_name(self.params@, name@),
    {
        let mut i: usize = 0;
        while i < self.params.len()
            invariant
                i <= self.params@.len(),
                forall|j: int| 0 <= j < i ==> (#[trigger] self.params@[j])@ != name@,
            decreases self.params@.len() - i,
        {
            if crate::path::bytes_eq(&self.params[i], name) {
                proof {
                    assert(self.params@[i as int]@ == name@);
                }
                return true;
            }
            i = i + 1;
        }
        false
    }

    /// Rewrite one parameter's name in the body and in the list, after
    /// checking that the old name is a parameter.
    pub fn rename_param(&mut self, old_param: &mut Vec<u8>, new_name: Vec<u8>) -> (r: Result<
        (),
        MacroError,
    >)
        ensures
            final(self).params@ == old(self).params@,
            final(self).blocked == old(self).blocked,
            !contains_name(old(self).params@, old(old_param)@) ==> r == Err::<(), MacroError>(
                MacroError::UnknownMacroParameter,
            ) && final(self).contents@ == old(self).contents@ && *final(old_param) == *old(old_param),
            contains_name(old(self).params@, old(old_param)@) ==> r is Ok && final(self).contents@ == replace_spec(old(self).contents@, old(old_param)@, new_name@) && final(old_param)@ == new_name@,
    {
        if !self.contains_param(old_param) {
            Err(MacroError::UnknownMacroParameter)
        } else {
            self.force_rename_param(old_param, new_name)
        }
    }

    /// Rewrite one parameter's name in the body, unconditionally.
    pub fn force_rename_param(&mut self, old_param: &mut Vec<u8>, new_name: Vec<u8>) -> (r: Result<
        (),
        MacroError,
    >)
        ensures
            r is Ok,
            final(self).contents@ == replace_spec(old(self).contents@, old(old_param)@, new_name@),
            final(old_param)@ == new_name@,
            final(self).params@ == old(self).params@,
            final(self).blocked == old(self).blocked,
    {
        self.contents = replace_bytes(&self.contents, old_param, &new_name);
        *old_param = new_name;
        Ok(())
    }

    /// Rewrite one parameter under a fresh name, refusing a new name that
    /// is already a parameter; the body is rewritten twice, as renaming
    /// always rewrites once more.
    pub fn refactor_param(&mut self, old_param: &mut Vec<u8>, new_name: Vec<u8>) -> (r: Result<
        (),
        MacroError,
    >)
        ensures
            final(self).params@ == old(self).params@,
            final(self).blocked == old(self).blocked,
            contains_name(old(self).params@, new_name@) ==> r == Err::<(), MacroError>(
                MacroError::UnknownMacroParameter,
            ) && final(self).contents@ == old(self).contents@ && *final(old_param) == *old(old_param),
            !contains_name(old(self).params@, new_name@) ==> r is Ok && final(self).contents@
                == replace_spec(
                replace_spec(old(self).contents@, old(old_param)@, new_name@),
                old(old_param)@,
                new_name@,
            ) && final(old_param)@ == new_name@,
    {
        if self.contains_param(&new_name) {
            return Err(MacroError::UnknownMacroParameter);
        }
        self.contents = replace_bytes(&self.contents, old_param, &new_name);
        self.force_rename_param(old_param, new_name)
    }

    /// Expand the macro with positional arguments: each parameter name in
    /// the body is replaced by its argument, longest names first so that a
    /// name containing a shorter one is substituted before the shorter one
    /// can break it up.
    pub fn evaluate(&self, parameters: &Vec<Vec<u8>>) -> (r: Result<Vec<u8>, MacroError>)
        ensures
            parameters@.len() != self.params@.len() ==> r == Err::<Vec<u8>, MacroError>(
                MacroError::InvalidParameterCount(parameters@.len() as usize, self.params@.len() as usize),
            ),
            parameters@.len() == self.params@.len() ==> (r matches Ok(v) && v@ == apply_all(
                self.contents@,
                sort_desc(indexed(params_view(self.params@))),
                params_view(parameters@),
            )),
    {
        if parameters.len() != self.params.len() {
            return Err(MacroError::InvalidParameterCount(parameters.len(), self.params.len()));
        }
        // Sort the parameters by descending name length, stably, by
        // insertion from the right.
        let mut order: Vec<usize> = Vec::new();
        let mut i: usize = self.params.len();
        proof {
            assert(indexed(params_view(self.params@)).skip(i as int) =~= Seq::<
                (Seq<u8>, int),
            >::empty());
            assert(order_view(order@, params_view(self.params@)) =~= Seq::<(Seq<u8>, int)>::empty());
        }
        while i > 0
            invariant
                0 <= i <= self.params@.len(),
                forall|j: int| 0 <= j < order@.len() ==> i <= #[trigger] order@[j] < self.params@.len(),
                order_view(order@, params_view(self.params@)) == sort_desc(
                    indexed(params_view(self.params@)).skip(i as int),
                ),
            decreases i,
        {
            i = i - 1;
            // Insert index i in front of the run of longer names.
            let ghost before = order@;
            let mut at: usize = 0;
            let nlen = self.params[i].len();
            while at < order.len() && self.params[order[at]].len() > nlen
                invariant
                    0 <= at <= order@.len(),
                    order@ == before,
                    i < self.params@.len(),
                    nlen == params_view(self.params@)[i as int].len(),
                    forall|j: int| 0 <= j < order@.len() ==> i + 1 <= #[trigger] order@[j] < self.params@.len(),
                    forall|j: int|
                        0 <= j < at ==> (#[trigger] params_view(self.params@)[order@[j] as int]).len()
                            > nlen,
                    at < order@.len() ==> true,
                decreases order@.len() - at,
            {
                at = at + 1;
            }
            order.insert(at, i);
            proof {
                let pv = params_view(self.params@);
                let sorted_rest = sort_desc(indexed(pv).skip(i + 1));
                assert(indexed(pv).skip(i as int)[0] == (pv[i as int], i as int));
                assert(indexed(pv).skip(i as int).skip(1) =~= indexed(pv).skip(i + 1));
                assert(sort_desc(indexed(pv).skip(i as int)) == insert_desc(
                    (pv[i as int], i as int),
                    sorted_rest,
                ));
                lemma_insert_desc_at(
                    (pv[i as int], i as int),
                    order_view(before, pv),
                    at as int,
                );
                assert(order_view(order@, pv) =~= order_view(before, pv).take(at as int) + seq![
                    (pv[i as int], i as int),
                ] + order_view(before, pv).skip(at as int));
            }
        }
        proof {
            assert(indexed(params_view(self.params@)).skip(0) =~= indexed(
                params_view(self.params@),
            ));
        }
        // Apply the substitutions in that order.
        let mut result = crate::path::copy_bytes(&self.contents);
        let mut t: usize = 0;
        let ghost sorted = sort_desc(indexed(params_view(self.params@)));
        proof {
            let pv = params_view(self.params@);
            assert(order_view(order@, pv) == sorted);
            assert(order_view(order@, pv).len() == order@.len());
            assert forall|j: int| 0 <= j < order@.len() implies #[trigger] sorted[j] == (
                pv[order@[j] as int],
                order@[j] as int,
            ) by {
                assert(order_view(order@, pv)[j] == (pv[order@[j] as int], order@[j] as int));
            }
            assert(sorted.skip(0) =~= sorted);
        }
        while t < order.len()
            invariant
                0 <= t <= order@.len(),
                order@.len() == sorted.len(),
                parameters@.len() == self.params@.len(),
                forall|j: int| 0 <= j < order@.len() ==> 0 <= #[trigger] order@[j] < self.params@.len(),
                forall|j: int|
                    0 <= j < order@.len() ==> #[trigger] sorted[j] == (
                        params_view(self.params@)[order@[j] as int],
                        order@[j] as int,
                    ),
                apply_all(self.contents@, sorted, params_view(parameters@)) == apply_all(
                    result@,
                    sorted.skip(t as int),
                    params_view(parameters@),
                ),
            decreases order@.len() - t,
        {
            let pi = order[t];
            result = replace_bytes(&result, &self.params[pi], &parameters[pi]);
            proof {
                assert(sorted.skip(t as int)[0] == sorted[t as int]);
                assert(sorted.skip(t as int).skip(1) =~= sorted.skip(t as int + 1));
            }
            t = t + 1;
        }
        proof {
            assert(sorted.skip(sorted.len() as int) =~= Seq::<(Seq<u8>, int)>::empty());
        }
        Ok(result)
    }

    /// The macro's body.
    pub fn get_value(&self) -> (r: &Vec<u8>)
        ensures
            r@ == self.contents@,
    {
        &self.contents
    }

    /// How many parameters the macro takes.
    pub fn parameter_count(&self) -> (r: usize)
        ensures
            r == self.params@.len(),
    {
        self.params.len()
    }
}

} // verus!
