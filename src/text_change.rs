use vstd::prelude::*;
use vstd::string::*;

verus! {

/// A replacement of the characters `start..end` of a text by `new_text`.
/// A removal has an empty `new_text`; an insertion has `start == end`.
pub struct TextChange {
    pub start: usize,
    pub end: usize,
    pub new_text: String,
}

/// Why a list of changes cannot be applied.
#[derive(Clone, Copy, Debug, PartialEq, Eq, Structural)]
pub enum ChangeConflict {
    /// A change ends before it starts, or after the end of the text.
    OutOfBounds,
    /// Two changes cover a common character.
    Overlap,
}

impl TextChange {
    pub fn new(start: usize, end: usize, new_text: String) -> (r: TextChange)
        ensures
            r.start == start,
            r.end == end,
            r.new_text == new_text,
    {
        TextChange { start, end, new_text }
    }

    /// A copy of the change.
    pub fn duplicate(&self) -> (r: TextChange)
        ensures
            r == *self,
    {
        TextChange { start: self.start, end: self.end, new_text: self.new_text.clone() }
    }

    pub fn removal(start: usize, end: usize) -> (r: TextChange)
        ensures
            r.start == start,
            r.end == end,
            r.new_text@ == Seq::<char>::empty(),
    {
        TextChange { start, end, new_text: String::new() }
    }
}

/// Two changes overlap when they cover a common position strictly inside
/// both of them.
pub open spec fn overlaps(a: TextChange, b: TextChange) -> bool {
    a.start < b.end && b.start < a.end
}

/// No two changes of the list overlap.
pub open spec fn disjoint_changes(cs: Seq<TextChange>) -> bool {
    forall|i: int, j: int|
        0 <= i < cs.len() && 0 <= j < cs.len() && i != j ==> !overlaps(#[trigger] cs[i], #[trigger] cs[j])
}

/// The order in which changes are applied: by start, then by end.
pub open spec fn change_le(a: TextChange, b: TextChange) -> bool {
    a.start < b.start || (a.start == b.start && a.end <= b.end)
}

/// Inserts `c` after the last element of `s` that is not after it.
pub open spec fn insert_sorted(c: TextChange, s: Seq<TextChange>) -> Seq<TextChange>
    decreases s.len(),
{
    if s.len() == 0 {
        seq![c]
    } else if change_le(s.last(), c) {
        s.push(c)
    } else {
        insert_sorted(c, s.drop_last()).push(s.last())
    }
}

/// The changes in application order; equal keys keep their order (a stable sort).
pub open spec fn sorted_changes(cs: Seq<TextChange>) -> Seq<TextChange>
    decreases cs.len(),
{
    if cs.len() == 0 {
        Seq::empty()
    } else {
        insert_sorted(cs.last(), sorted_changes(cs.drop_last()))
    }
}

/// Every change lies within a text of length `len`.
pub open spec fn changes_in_bounds(cs: Seq<TextChange>, len: nat) -> bool {
    forall|i: int| 0 <= i < cs.len() ==> #[trigger] cs[i].start <= cs[i].end <= len
}

/// Each change starts no earlier than the previous one ends.
pub open spec fn changes_ordered(cs: Seq<TextChange>) -> bool {
    forall|i: int| 0 < i < cs.len() ==> cs[i - 1].end <= #[trigger] cs[i].start
}

/// The text with the ordered changes spliced in, copying from `from` on.
pub open spec fn patched(text: Seq<char>, cs: Seq<TextChange>, from: int) -> Seq<char>
    decreases cs.len(),
{
    if cs.len() == 0 {
        text.subrange(from, text.len() as int)
    } else {
        text.subrange(from, cs[0].start as int) + cs[0].new_text@ + patched(
            text,
            cs.drop_first(),
            cs[0].end as int,
        )
    }
}

/// What applying the changes to the text gives.
pub open spec fn apply_outcome(text: Seq<char>, cs: Seq<TextChange>) -> Result<
    Seq<char>,
    ChangeConflict,
> {
    let s = sorted_changes(cs);
    if !changes_in_bounds(s, text.len()) {
        Err(ChangeConflict::OutOfBounds)
    } else if !changes_ordered(s) {
        Err(ChangeConflict::Overlap)
    } else {
        Ok(patched(text, s, 0))
    }
}

proof fn lemma_insert_sorted_at(c: TextChange, s: Seq<TextChange>, j: int)
    requires
        0 <= j <= s.len(),
        j == 0 || change_le(s[j - 1], c),
        forall|k: int| j <= k < s.len() ==> !change_le(#[trigger] s[k], c),
    ensures
        insert_sorted(c, s) == s.subrange(0, j).push(c) + s.subrange(j, s.len() as int),
    decreases s.len(),
{
    if s.len() == 0 {
        assert(seq![c] =~= Seq::<TextChange>::empty().push(c) + Seq::<TextChange>::empty());
    } else if j == s.len() {
        assert(s.subrange(0, j) =~= s);
        assert(s.subrange(j, s.len() as int) =~= Seq::<TextChange>::empty());
        assert(s.subrange(0, j).push(c) + s.subrange(j, s.len() as int) =~= s.push(c));
    } else {
        let t = s.drop_last();
        lemma_insert_sorted_at(c, t, j);
        assert(t.subrange(0, j) =~= s.subrange(0, j));
        assert(t.subrange(j, t.len() as int).push(s.last()) =~= s.subrange(j, s.len() as int));
        assert((t.subrange(0, j).push(c) + t.subrange(j, t.len() as int)).push(s.last())
            =~= s.subrange(0, j).push(c) + s.subrange(j, s.len() as int));
    }
}

fn change_le_exec(a: &TextChange, b: &TextChange) -> (r: bool)
    ensures
        r == change_le(*a, *b),
{
    a.start < b.start || (a.start == b.start && a.end <= b.end)
}

/// Sorts the changes by start, then by end, keeping the order of equal ones.
pub fn sort_changes(changes: Vec<TextChange>) -> (r: Vec<TextChange>)
    ensures
        r@ == sorted_changes(changes@),
{
    let ghost all = changes@;
    let mut rest = changes;
    let mut out: Vec<TextChange> = Vec::new();
    let n = rest.len();
    let mut i: usize = 0;
    assert(all.subrange(0, 0) =~= Seq::<TextChange>::empty());
    while i < n
        invariant
            n == all.len(),
            i <= n,
            rest@ == all.subrange(i as int, n as int),
            out@ == sorted_changes(all.subrange(0, i as int)),
        decreases n - i,
    {
        let c = rest.remove(0);
        assert(c == all[i as int]);
        assert(rest@ =~= all.subrange(i as int + 1, n as int));
        let mut j = out.len();
        while j > 0 && !change_le_exec(&out[j - 1], &c)
            invariant
                j <= out.len(),
                forall|k: int| j <= k < out.len() ==> !change_le(#[trigger] out@[k], c),
            decreases j,
        {
            j = j - 1;
        }
        proof {
            lemma_insert_sorted_at(c, out@, j as int);
            let prefix = all.subrange(0, i as int + 1);
            assert(prefix.drop_last() =~= all.subrange(0, i as int));
            assert(prefix.last() == c);
            assert(out@.insert(j as int, c) =~= out@.subrange(0, j as int).push(c) + out@.subrange(
                j as int,
                out@.len() as int,
            ));
        }
        out.insert(j, c);
        i = i + 1;
    }
    assert(all.subrange(0, n as int) =~= all);
    out
}

/// Applies the changes to the text: sorted by start, then by end, each
/// replaces its range of the original text. Fails when a change lies outside
/// the text or two changes overlap.
pub fn apply_text_changes(text: &str, changes: Vec<TextChange>) -> (r: Result<String, ChangeConflict>)
    ensures
        match (r, apply_outcome(text@, changes@)) {
            (Ok(s), Ok(t)) => s@ == t,
            (Err(e), Err(f)) => e == f,
            _ => false,
        },
{
    let sorted = sort_changes(changes);
    let len = text.unicode_len();
    let n = sorted.len();
    let mut i: usize = 0;
    while i < n
        invariant
            n == sorted@.len(),
            len == text@.len(),
            i <= n,
            sorted@ == sorted_changes(changes@),
            changes_in_bounds(sorted@.subrange(0, i as int), len as nat),
        decreases n - i,
    {
        if sorted[i].start > sorted[i].end || sorted[i].end > len {
            assert(!changes_in_bounds(sorted@, len as nat)) by {
                assert(!(sorted@[i as int].start <= sorted@[i as int].end <= len));
            }
            return Err(ChangeConflict::OutOfBounds);
        }
        assert(changes_in_bounds(sorted@.subrange(0, i as int + 1), len as nat)) by {
            assert forall|k: int| 0 <= k < i + 1 implies #[trigger] sorted@.subrange(0, i as int + 1)[k].start
                <= sorted@.subrange(0, i as int + 1)[k].end <= len by {
                if k < i {
                    assert(sorted@.subrange(0, i as int + 1)[k] == sorted@.subrange(0, i as int)[k]);
                }
            }
        }
        i = i + 1;
    }
    assert(sorted@.subrange(0, n as int) =~= sorted@);
    let mut i: usize = 1;
    while i < n
        invariant
            n == sorted@.len(),
            1 <= i,
            i <= n || n == 0,
            len == text@.len(),
            sorted@ == sorted_changes(changes@),
            changes_in_bounds(sorted@, len as nat),
            forall|k: int| 0 < k < i && k < n ==> sorted@[k - 1].end <= #[trigger] sorted@[k].start,
        decreases n - i,
    {
        if sorted[i].start < sorted[i - 1].end {
            assert(!changes_ordered(sorted@)) by {
                assert(!(sorted@[i - 1].end <= sorted@[i as int].start));
            }
            return Err(ChangeConflict::Overlap);
        }
        i = i + 1;
    }
    assert(changes_ordered(sorted@));
    let mut out = String::new();
    let mut last: usize = 0;
    let mut i: usize = 0;
    proof {
        assert(patched(text@, sorted@.subrange(0, n as int), 0) == patched(text@, sorted@, 0)) by {
            assert(sorted@.subrange(0, n as int) =~= sorted@);
        }
    }
    while i < n
        invariant
            n == sorted@.len(),
            len == text@.len(),
            i <= n,
            changes_in_bounds(sorted@, len as nat),
            changes_ordered(sorted@),
            last <= len,
            i > 0 ==> last == sorted@[i - 1].end,
            i == 0 ==> last == 0,
            out@ + patched(text@, sorted@.subrange(i as int, n as int), last as int) == patched(
                text@,
                sorted@,
                0,
            ),
        decreases n - i,
    {
        let ghost rest = sorted@.subrange(i as int, n as int);
        let c = &sorted[i];
        assert(rest[0] == *c);
        assert(rest.drop_first() =~= sorted@.subrange(i as int + 1, n as int));
        assert(last <= c.start) by {
            if i > 0 {
                assert(sorted@[i - 1].end <= sorted@[i as int].start);
            }
        }
        let piece = text.substring_char(last, c.start);
        out.append(piece);
        out.append(c.new_text.as_str());
        last = c.end;
        i = i + 1;
    }
    let tail = text.substring_char(last, len);
    out.append(tail);
    proof {
        assert(sorted@.subrange(n as int, n as int) =~= Seq::<TextChange>::empty());
    }
    Ok(out)
}

proof fn lemma_insert_sorted_ordered(c: TextChange, s: Seq<TextChange>)
    requires
        changes_ordered(s),
        c.start <= c.end,
        forall|k: int| 0 <= k < s.len() ==> #[trigger] s[k].start <= s[k].end,
        forall|k: int| 0 <= k < s.len() ==> !overlaps(#[trigger] s[k], c),
    ensures
        changes_ordered(insert_sorted(c, s)),
        insert_sorted(c, s).len() == s.len() + 1,
        forall|x: TextChange| #[trigger] insert_sorted(c, s).contains(x) ==> x == c || s.contains(x),
        insert_sorted(c, s).last() == (if s.len() == 0 || change_le(s.last(), c) {
            c
        } else {
            s.last()
        }),
    decreases s.len(),
{
    let r = insert_sorted(c, s);
    if s.len() == 0 {
        assert forall|x: TextChange| #[trigger] r.contains(x) implies x == c by {
            let k = choose|k: int| 0 <= k < r.len() && r[k] == x;
        }
    } else if change_le(s.last(), c) {
        assert forall|x: TextChange| #[trigger] r.contains(x) implies x == c || s.contains(x) by {
            let k = choose|k: int| 0 <= k < r.len() && r[k] == x;
            if k < s.len() {
                assert(s[k] == x);
            }
        }
        assert(!overlaps(s[s.len() - 1], c));
    } else {
        let t = s.drop_last();
        assert forall|k: int| 0 < k < t.len() implies t[k - 1].end <= #[trigger] t[k].start by {
            assert(s[k - 1].end <= s[k].start);
        }
        assert forall|k: int| 0 <= k < t.len() implies !overlaps(#[trigger] t[k], c) by {
            assert(!overlaps(s[k], c));
        }
        lemma_insert_sorted_ordered(c, t);
        let u = insert_sorted(c, t);
        assert(!overlaps(s[s.len() - 1], c));
        assert(u.last().end <= s.last().start) by {
            if t.len() == 0 || change_le(t.last(), c) {
            } else {
                assert(s[s.len() - 2].end <= s[s.len() - 1].start);
            }
        }
        assert forall|k: int| 0 < k < r.len() implies r[k - 1].end <= #[trigger] r[k].start by {
            if k < u.len() {
                assert(r[k] == u[k] && r[k - 1] == u[k - 1]);
            }
        }
        assert forall|x: TextChange| #[trigger] r.contains(x) implies x == c || s.contains(x) by {
            let k = choose|k: int| 0 <= k < r.len() && r[k] == x;
            if k < u.len() {
                assert(u[k] == x);
                assert(u.contains(x));
                if x != c {
                    let m = choose|m: int| 0 <= m < t.len() && t[m] == x;
                    assert(s[m] == x);
                }
            } else {
                assert(s[s.len() - 1] == x);
            }
        }
    }
}

proof fn lemma_sorted_changes_ordered(cs: Seq<TextChange>)
    requires
        disjoint_changes(cs),
        forall|k: int| 0 <= k < cs.len() ==> #[trigger] cs[k].start <= cs[k].end,
    ensures
        changes_ordered(sorted_changes(cs)),
        sorted_changes(cs).len() == cs.len(),
        forall|x: TextChange| #[trigger] sorted_changes(cs).contains(x) ==> cs.contains(x),
    decreases cs.len(),
{
    if cs.len() > 0 {
        let t = cs.drop_last();
        assert forall|i: int, j: int|
            0 <= i < t.len() && 0 <= j < t.len() && i != j implies !overlaps(#[trigger] t[i], #[trigger] t[j]) by {
            assert(!overlaps(cs[i], cs[j]));
        }
        lemma_sorted_changes_ordered(t);
        let s = sorted_changes(t);
        let c = cs.last();
        assert forall|k: int| 0 <= k < s.len() implies #[trigger] s[k].start <= s[k].end by {
            assert(s.contains(s[k]));
            let m = choose|m: int| 0 <= m < t.len() && t[m] == s[k];
            assert(cs[m] == s[k]);
        }
        assert forall|k: int| 0 <= k < s.len() implies !overlaps(#[trigger] s[k], c) by {
            assert(s.contains(s[k]));
            let m = choose|m: int| 0 <= m < t.len() && t[m] == s[k];
            assert(cs[m] == s[k]);
            assert(!overlaps(cs[m], cs[cs.len() - 1]));
        }
        assert(c.start <= c.end) by {
            assert(cs[cs.len() - 1].start <= cs[cs.len() - 1].end);
        }
        lemma_insert_sorted_ordered(c, s);
        assert forall|x: TextChange| #[trigger] sorted_changes(cs).contains(x) implies cs.contains(x) by {
            if x == c {
                assert(cs[cs.len() - 1] == x);
            } else {
                assert(s.contains(x));
                let m = choose|m: int| 0 <= m < t.len() && t[m] == x;
                assert(cs[m] == x);
            }
        }
    }
}

/// Changes that lie within the text and do not overlap one another always
/// apply, whatever order they were collected in.
pub proof fn lemma_disjoint_changes_apply(text: Seq<char>, cs: Seq<TextChange>)
    requires
        disjoint_changes(cs),
        changes_in_bounds(cs, text.len()),
    ensures
        apply_outcome(text, cs) is Ok,
{
    assert forall|k: int| 0 <= k < cs.len() implies #[trigger] cs[k].start <= cs[k].end by {
        assert(cs[k].start <= cs[k].end <= text.len());
    }
    lemma_sorted_changes_ordered(cs);
    let s = sorted_changes(cs);
    assert forall|i: int| 0 <= i < s.len() implies #[trigger] s[i].start <= s[i].end <= text.len() by {
        assert(s.contains(s[i]));
        let m = choose|m: int| 0 <= m < cs.len() && cs[m] == s[i];
        assert(cs[m].start <= cs[m].end <= text.len());
    }
}

} // verus!
