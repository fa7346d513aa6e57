//! The validation stack: one automaton per function body, holding value types,
//! control-flow labels and the polymorphic "any values" marker in one sequence.
use vstd::prelude::*;

use crate::error::Error;
use crate::types::{LabelKind, ValType};

verus! {

/// What a label records about the scope that it opens.
#[derive(Debug, Clone, Copy, PartialEq, Eq, Structural)]
pub struct LabelInfo {
    pub kind: LabelKind,
}

/// One entry of the validation stack.
#[derive(Debug, Clone, Copy, PartialEq, Eq, Structural)]
pub enum ValidationStackEntry {
    /// A value of a known type.
    Val(ValType),
    /// The start of a structured control-flow scope.
    Label(LabelInfo),
    /// Any number of values of any types, left by `return` or `unreachable`.
    UnspecifiedValTypes,
}

/// Index of the top-most label, or -1 when there is none.
pub open spec fn top_label_idx(s: Seq<ValidationStackEntry>) -> int
    decreases s.len(),
{
    if s.len() == 0 {
        -1
    } else if s.last() is Label {
        s.len() - 1
    } else {
        top_label_idx(s.drop_last())
    }
}

/// The entries above the top-most label: the current scope's operands.
pub open spec fn visible(s: Seq<ValidationStackEntry>) -> Seq<ValidationStackEntry> {
    s.subrange(top_label_idx(s) + 1, s.len() as int)
}

pub open spec fn has_label(s: Seq<ValidationStackEntry>) -> bool {
    exists|i: int| 0 <= i < s.len() && #[trigger] s[i] is Label
}

/// The top of `s` holds `ex` (its last element top-most), read from the top
/// down, until the marker (which stands for anything below it) or until `ex`
/// is used up; a label or the bottom of the stack first means no match.
pub open spec fn top_matches(s: Seq<ValidationStackEntry>, ex: Seq<ValType>) -> bool
    decreases ex.len(),
{
    if ex.len() == 0 {
        true
    } else if s.len() == 0 {
        false
    } else {
        match s.last() {
            ValidationStackEntry::UnspecifiedValTypes => true,
            ValidationStackEntry::Label(_) => false,
            ValidationStackEntry::Val(t) => t == ex.last() && top_matches(
                s.drop_last(),
                ex.drop_last(),
            ),
        }
    }
}

/// `s` holds exactly `ex`: as `top_matches`, with no value left over once `ex`
/// is used up (the marker still stands for any values below it).
pub open spec fn exact_matches(s: Seq<ValidationStackEntry>, ex: Seq<ValType>) -> bool
    decreases s.len(),
{
    if s.len() == 0 {
        ex.len() == 0
    } else {
        match s.last() {
            ValidationStackEntry::UnspecifiedValTypes => true,
            ValidationStackEntry::Label(_) => false,
            ValidationStackEntry::Val(t) => ex.len() > 0 && t == ex.last() && exact_matches(
                s.drop_last(),
                ex.drop_last(),
            ),
        }
    }
}

/// The stack and the outcome after popping a value of type `expected` from `s`.
pub open spec fn pop_val_outcome(s: Seq<ValidationStackEntry>, expected: ValType) -> (
    Seq<ValidationStackEntry>,
    Result<(), Error>,
) {
    if s.len() == 0 {
        (s, Err(Error::InvalidValidationStackValType(None)))
    } else {
        match s.last() {
            ValidationStackEntry::UnspecifiedValTypes => (s, Ok(())),
            ValidationStackEntry::Label(li) => (s, Err(Error::FoundLabel(li.kind))),
            ValidationStackEntry::Val(t) => (
                s.drop_last(),
                if t == expected {
                    Ok(())
                } else {
                    Err(Error::InvalidValidationStackValType(Some(t)))
                },
            ),
        }
    }
}

pub proof fn lemma_top_label_idx(s: Seq<ValidationStackEntry>)
    ensures
        -1 <= top_label_idx(s) < s.len(),
        top_label_idx(s) >= 0 ==> s[top_label_idx(s)] is Label,
        forall|j: int| top_label_idx(s) < j < s.len() ==> !(#[trigger] s[j] is Label),
        has_label(s) <==> top_label_idx(s) >= 0,
    decreases s.len(),
{
    if s.len() > 0 && !(s.last() is Label) {
        lemma_top_label_idx(s.drop_last());
        assert forall|j: int| top_label_idx(s) < j < s.len() implies !(#[trigger] s[j] is Label) by {
            if j < s.len() - 1 {
                assert(s[j] == s.drop_last()[j]);
            }
        }
        if has_label(s) {
            let i = choose|i: int| 0 <= i < s.len() && #[trigger] s[i] is Label;
            assert(s.drop_last()[i] is Label);
        }
        if has_label(s.drop_last()) {
            let i = choose|i: int| 0 <= i < s.drop_last().len() && #[trigger] s.drop_last()[i] is Label;
            assert(s[i] is Label);
        }
    } else if s.len() > 0 {
        assert(s[s.len() - 1] is Label);
    }
}

pub proof fn lemma_top_label_idx_prefix(s: Seq<ValidationStackEntry>, k: int)
    requires
        top_label_idx(s) < k <= s.len(),
    ensures
        top_label_idx(s.subrange(0, k)) == top_label_idx(s),
    decreases s.len(),
{
    if k == s.len() {
        assert(s.subrange(0, k) =~= s);
    } else {
        lemma_top_label_idx(s);
        assert(!(s.last() is Label)) by {
            assert(s[s.len() - 1] is Label ==> top_label_idx(s) == s.len() - 1);
        }
        assert(s.drop_last().subrange(0, k) =~= s.subrange(0, k));
        lemma_top_label_idx_prefix(s.drop_last(), k);
    }
}

/// The stack that `make_unspecified` leaves: the current scope's entries
/// replaced by the marker.
pub open spec fn after_make_unspecified(s: Seq<ValidationStackEntry>) -> Seq<ValidationStackEntry> {
    s.subrange(0, top_label_idx(s) + 1).push(ValidationStackEntry::UnspecifiedValTypes)
}

/// Pops values of the types `reqs`, in order: the final stack, and whether
/// every pop succeeded.
pub open spec fn pop_all(s: Seq<ValidationStackEntry>, reqs: Seq<ValType>) -> (
    Seq<ValidationStackEntry>,
    bool,
)
    decreases reqs.len(),
{
    if reqs.len() == 0 {
        (s, true)
    } else {
        let (s2, r) = pop_val_outcome(s, reqs[0]);
        let (s3, ok) = pop_all(s2, reqs.subrange(1, reqs.len() as int));
        (s3, r is Ok && ok)
    }
}

/// After `make_unspecified`, any number of pops of values of any types in the
/// same scope all succeed, and leave the stack, its marker and its labels as
/// they were.
pub proof fn lemma_unspecified_absorbs_pops(s: Seq<ValidationStackEntry>, reqs: Seq<ValType>)
    ensures
        pop_all(after_make_unspecified(s), reqs) == (after_make_unspecified(s), true),
        top_label_idx(after_make_unspecified(s)) == top_label_idx(s),
    decreases reqs.len(),
{
    let t = after_make_unspecified(s);
    lemma_top_label_idx(s);
    if reqs.len() > 0 {
        lemma_unspecified_absorbs_pops(s, reqs.subrange(1, reqs.len() as int));
    }
    let p = s.subrange(0, top_label_idx(s) + 1);
    assert(t.drop_last() =~= p);
    if top_label_idx(s) >= 0 {
        lemma_top_label_idx(s);
        lemma_top_label_idx_prefix(s, top_label_idx(s) + 1);
    } else {
        lemma_top_label_idx(p);
    }
}

proof fn lemma_exact_matches_len(v: Seq<ValidationStackEntry>, ex: Seq<ValType>)
    requires
        forall|i: int| 0 <= i < v.len() ==> !(#[trigger] v[i] is UnspecifiedValTypes),
        exact_matches(v, ex),
    ensures
        v.len() == ex.len(),
    decreases v.len(),
{
    if v.len() > 0 {
        assert(!(v[v.len() - 1] is UnspecifiedValTypes));
        assert forall|i: int| 0 <= i < v.drop_last().len() implies !(
        #[trigger] v.drop_last()[i] is UnspecifiedValTypes) by {
            assert(v.drop_last()[i] == v[i]);
        }
        lemma_exact_matches_len(v.drop_last(), ex.drop_last());
    }
}

/// A scope whose values are all known (no `return` or `unreachable` in it)
/// passes the check at its end only if it holds exactly as many values as its
/// declared results: one more or one fewer is rejected.
pub proof fn lemma_scope_end_rejects_wrong_arity(s: Seq<ValidationStackEntry>, ex: Seq<ValType>)
    requires
        forall|i: int|
            0 <= i < visible(s).len() ==> !(#[trigger] visible(s)[i] is UnspecifiedValTypes),
        visible(s).len() != ex.len(),
    ensures
        !exact_matches(visible(s), ex),
{
    if exact_matches(visible(s), ex) {
        lemma_exact_matches_len(visible(s), ex);
    }
}

/// A stack of value types and labels.
#[derive(Debug, PartialEq, Eq)]
pub struct ValidationStack {
    stack: Vec<ValidationStackEntry>,
}

impl View for ValidationStack {
    type V = Seq<ValidationStackEntry>;

    closed spec fn view(&self) -> Seq<ValidationStackEntry> {
        self.stack@
    }
}

impl ValidationStack {
    /// An empty stack.
    pub fn new() -> (r: Self)
        ensures
            r@ == Seq::<ValidationStackEntry>::empty(),
    {
        ValidationStack { stack: Vec::new() }
    }

    pub fn len(&self) -> (r: usize)
        ensures
            r == self@.len(),
    {
        self.stack.len()
    }

    pub fn push_valtype(&mut self, valtype: ValType)
        ensures
            final(self)@ == old(self)@.push(ValidationStackEntry::Val(valtype)),
    {
        self.stack.push(ValidationStackEntry::Val(valtype));
    }

    pub fn push_label(&mut self, label_info: LabelInfo)
        ensures
            final(self)@ == old(self)@.push(ValidationStackEntry::Label(label_info)),
    {
        self.stack.push(ValidationStackEntry::Label(label_info));
    }

    /// Drops every entry above the top-most label and puts the marker there:
    /// from now on, values of any type can be popped in this scope.
    pub fn make_unspecified(&mut self)
        ensures
            final(self)@ == after_make_unspecified(old(self)@),
    {
        let ghost s0 = self@;
        proof {
            lemma_top_label_idx(s0);
        }
        loop
            invariant
                top_label_idx(s0) + 1 <= self@.len() <= s0.len(),
                self@ == s0.subrange(0, self@.len() as int),
                top_label_idx(s0) >= 0 ==> s0[top_label_idx(s0)] is Label,
                -1 <= top_label_idx(s0),
            ensures
                self@ == s0.subrange(0, top_label_idx(s0) + 1),
            decreases self@.len(),
        {
            match self.stack.last() {
                Some(ValidationStackEntry::Label(_)) => {
                    proof {
                        lemma_top_label_idx_prefix(s0, self@.len() as int);
                        assert(top_label_idx(self@) == self@.len() - 1);
                    }
                    break ;
                },
                Some(_) => {
                    assert(s0[self@.len() - 1] == self@.last());
                    self.stack.pop();
                    assert(self@ =~= s0.subrange(0, self@.len() as int));
                },
                None => {
                    assert(self@ =~= s0.subrange(0, top_label_idx(s0) + 1));
                    break ;
                },
            }
        }
        self.stack.push(ValidationStackEntry::UnspecifiedValTypes);
    }

    /// Removes the top entry; fails when the stack is empty.
    fn pop(&mut self) -> (r: Result<ValidationStackEntry, Error>)
        ensures
            old(self)@.len() == 0 ==> r == Err::<ValidationStackEntry, Error>(
                Error::InvalidValidationStackValType(None),
            ) && final(self)@ == old(self)@,
            old(self)@.len() > 0 ==> r == Ok::<ValidationStackEntry, Error>(old(self)@.last())
                && final(self)@ == old(self)@.drop_last(),
    {
        match self.stack.pop() {
            Some(e) => Ok(e),
            None => Err(Error::InvalidValidationStackValType(None)),
        }
    }

    /// Pops a value of type `expected_ty`. With the marker on top this
    /// succeeds and keeps the marker; a label on top is never removed.
    pub fn assert_pop_val_type(&mut self, expected_ty: ValType) -> (r: Result<(), Error>)
        ensures
            (final(self)@, r) == pop_val_outcome(old(self)@, expected_ty),
    {
        match self.stack.last() {
            Some(ValidationStackEntry::UnspecifiedValTypes) => {
                return Ok(());
            },
            Some(ValidationStackEntry::Label(li)) => {
                return Err(Error::FoundLabel(li.kind));
            },
            _ => {},
        }
        match self.pop()? {
            ValidationStackEntry::Val(ty) => {
                if ty == expected_ty {
                    Ok(())
                } else {
                    Err(Error::InvalidValidationStackValType(Some(ty)))
                }
            },
            _ => Err(Error::InvalidValidationStackValType(None)),
        }
    }

    /// Checks, without changing the stack, that its top holds
    /// `expected_val_types` (the last one top-most).
    pub fn assert_val_types_on_top(&self, expected_val_types: &[ValType]) -> (r: Result<
        (),
        Error,
    >)
        ensures
            r is Ok <==> top_matches(self@, expected_val_types@),
            r is Err ==> r == Err::<(), Error>(Error::EndInvalidValueStack),
    {
        let n = self.stack.len();
        let m = expected_val_types.len();
        let mut i: usize = 0;
        assert(self@.subrange(0, n as int) =~= self@);
        assert(expected_val_types@.subrange(0, m as int) =~= expected_val_types@);
        while i < m
            invariant
                n == self@.len(),
                m == expected_val_types@.len(),
                i <= m,
                i <= n,
                top_matches(self@, expected_val_types@) == top_matches(
                    self@.subrange(0, n - i),
                    expected_val_types@.subrange(0, m - i),
                ),
            decreases m - i,
        {
            let ghost s = self@.subrange(0, n - i);
            let ghost ex = expected_val_types@.subrange(0, m - i);
            if i == n {
                return Err(Error::EndInvalidValueStack);
            }
            assert(s.drop_last() =~= self@.subrange(0, n - i - 1));
            assert(ex.drop_last() =~= expected_val_types@.subrange(0, m - i - 1));
            match self.stack[n - 1 - i] {
                ValidationStackEntry::Label(_) => {
                    return Err(Error::EndInvalidValueStack);
                },
                ValidationStackEntry::UnspecifiedValTypes => {
                    return Ok(());
                },
                ValidationStackEntry::Val(t) => {
                    if t != expected_val_types[m - 1 - i] {
                        return Err(Error::EndInvalidValueStack);
                    }
                },
            }
            i = i + 1;
        }
        Ok(())
    }

    /// Checks, without changing the stack, that the entries above the
    /// top-most label hold exactly `expected_val_types` (the last one
    /// top-most): no value missing, none left over. The marker stands for any
    /// values below it. Used where a scope or the function body ends.
    pub fn assert_val_types(&self, expected_val_types: &[ValType]) -> (r: Result<(), Error>)
        ensures
            r is Ok <==> exact_matches(visible(self@), expected_val_types@),
            r is Err ==> r == Err::<(), Error>(Error::EndInvalidValueStack),
    {
        let n = self.stack.len();
        let first_valtype = match self.find_topmost_label_idx() {
            Some(idx) => idx + 1,
            None => 0,
        };
        let ghost v = visible(self@);
        let m = expected_val_types.len();
        let mut i: usize = 0;
        assert(v.subrange(0, v.len() as int) =~= v);
        assert(expected_val_types@.subrange(0, m as int) =~= expected_val_types@);
        while i < n - first_valtype
            invariant
                n == self@.len(),
                m == expected_val_types@.len(),
                first_valtype == top_label_idx(self@) + 1,
                first_valtype <= n,
                v == self@.subrange(first_valtype as int, n as int),
                i <= m,
                i <= n - first_valtype,
                exact_matches(v, expected_val_types@) == exact_matches(
                    v.subrange(0, v.len() - i),
                    expected_val_types@.subrange(0, m - i),
                ),
            decreases n - first_valtype - i,
        {
            let ghost s = v.subrange(0, v.len() - i);
            let ghost ex = expected_val_types@.subrange(0, m - i);
            assert(s.drop_last() =~= v.subrange(0, v.len() - i - 1));
            match self.stack[n - 1 - i] {
                ValidationStackEntry::Label(_) => {
                    return Err(Error::EndInvalidValueStack);
                },
                ValidationStackEntry::UnspecifiedValTypes => {
                    return Ok(());
                },
                ValidationStackEntry::Val(t) => {
                    if i == m {
                        return Err(Error::EndInvalidValueStack);
                    }
                    assert(ex.drop_last() =~= expected_val_types@.subrange(0, m - i - 1));
                    if t != expected_val_types[m - 1 - i] {
                        return Err(Error::EndInvalidValueStack);
                    }
                },
            }
            i = i + 1;
        }
        assert(v.subrange(0, v.len() - i).len() == 0);
        if i == m {
            Ok(())
        } else {
            Err(Error::EndInvalidValueStack)
        }
    }

    /// Index of the top-most label, if any.
    fn find_topmost_label_idx(&self) -> (r: Option<usize>)
        ensures
            match r {
                Some(i) => i == top_label_idx(self@) && i < self@.len(),
                None => top_label_idx(self@) == -1,
            },
    {
        proof {
            lemma_top_label_idx(self@);
        }
        let mut i: usize = self.stack.len();
        while i > 0
            invariant
                i <= self@.len(),
                top_label_idx(self@) < i,
                -1 <= top_label_idx(self@) < self@.len(),
                top_label_idx(self@) >= 0 ==> self@[top_label_idx(self@)] is Label,
                forall|j: int| top_label_idx(self@) < j < self@.len() ==> !(#[trigger] self@[j] is Label),
            decreases i,
        {
            if let ValidationStackEntry::Label(_) = self.stack[i - 1] {
                return Some(i - 1);
            }
            i = i - 1;
        }
        None
    }

    /// Closes the current scope: removes every entry down to and including the
    /// top-most label and results that label's info; with no label left, the
    /// whole stack is cleared.
    pub fn pop_label_and_above(&mut self) -> (r: Option<LabelInfo>)
        ensures
            top_label_idx(old(self)@) >= 0 ==> final(self)@ == old(self)@.subrange(
                0,
                top_label_idx(old(self)@),
            ) && old(self)@[top_label_idx(old(self)@)] == ValidationStackEntry::Label(r->0),
            top_label_idx(old(self)@) >= 0 ==> r is Some,
            top_label_idx(old(self)@) < 0 ==> final(self)@.len() == 0 && r is None,
    {
        proof {
            lemma_top_label_idx(self@);
        }
        let n = self.stack.len();
        match self.find_topmost_label_idx() {
            Some(idx) => {
                let ghost s0 = self@;
                self.stack.truncate(idx + 1);
                assert(self@ =~= s0.subrange(0, idx + 1));
                match self.pop() {
                    Ok(ValidationStackEntry::Label(info)) => {
                        assert(self@ =~= s0.subrange(0, idx as int));
                        Some(info)
                    },
                    _ => None,
                }
            },
            None => {
                self.stack.clear();
                None
            },
        }
    }

    /// Whether any label, that is any open scope, remains.
    pub fn has_remaining_label(&self) -> (r: bool)
        ensures
            r == has_label(self@),
    {
        proof {
            lemma_top_label_idx(self@);
        }
        self.find_topmost_label_idx().is_some()
    }
}

} // verus!
