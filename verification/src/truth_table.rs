//! The truth-table generator: canonical enumeration of all assignments,
//! bottom-up evaluation of every distinct sub-expression, and the header and
//! boolean matrix that result.

use vstd::prelude::*;

use crate::expression::{add_atoms, atom_set, has_name, push_unless_present, seq_has, str_views, Expression};
use crate::render::render_of;
use crate::semantics::eval_view;

verus! {

/// Which rows to drop, by the value of the final (root) column.
#[derive(Debug, Copy, Clone)]
pub enum Hide {
    Off,
    True,
    False,
}

impl Default for Hide {
    /// Keep all rows by default.
    fn default() -> (r: Hide)
        ensures
            r is Off,
    {
        Hide::Off
    }
}

/// How to order rows, by the value of the final (root) column.
#[derive(Debug, Copy, Clone)]
pub enum Sort {
    Unsorted,
    TrueFirst,
    FalseFirst,
}

impl Default for Sort {
    /// Keep the enumeration order by default.
    fn default() -> (r: Sort)
        ensures
            r is Unsorted,
    {
        Sort::Unsorted
    }
}

/// The options of the truth-table generator.
#[derive(Debug, Copy, Clone)]
pub struct TruthTableOptions {
    pub sort: Sort,
    pub hide: Hide,
    pub hide_intermediate_steps: bool,
}

impl Default for TruthTableOptions {
    /// Enumeration order, all rows, all columns.
    fn default() -> (r: TruthTableOptions)
        ensures
            r.sort is Unsorted,
            r.hide is Off,
            r.hide_intermediate_steps == false,
    {
        TruthTableOptions {
            sort: Sort::Unsorted,
            hide: Hide::Off,
            hide_intermediate_steps: false,
        }
    }
}

/// The header and boolean matrix of a truth table.
#[derive(Debug)]
pub struct TruthTable {
    pub header: Vec<String>,
    pub truth_matrix: Vec<Vec<bool>>,
}

/// The header after visiting `e` in post-order, starting from `acc`: the
/// rendering of each sub-expression is appended after those of its children,
/// skipping renderings already present.
pub open spec fn add_headers(acc: Seq<Seq<char>>, e: Expression) -> Seq<Seq<char>>
    decreases e, 1int,
{
    match e {
        Expression::Not(x) => push_unless_present(add_headers(acc, *x), render_of(e@)),
        Expression::Binary { left, right, .. } => push_unless_present(
            add_headers(add_headers(acc, *left), *right),
            render_of(e@),
        ),
        Expression::Atomic(_) => push_unless_present(acc, render_of(e@)),
    }
}

/// The full header of `e`: the distinct renderings of its sub-expressions in
/// post-order of first occurrence, ending with the rendering of `e` itself.
pub open spec fn headers_of(e: Expression) -> Seq<Seq<char>> {
    add_headers(Seq::empty(), e)
}

/// A header never holds two equal strings.
pub open spec fn distinct_seqs(s: Seq<Seq<char>>) -> bool {
    forall|i: int, j: int| 0 <= i < j < s.len() ==> s[i] != s[j]
}

/// Visiting one more expression keeps a header distinct, keeps what was
/// there, and adds only renderings of sub-expressions of `e`.
pub proof fn lemma_add_headers_distinct(acc: Seq<Seq<char>>, e: Expression)
    ensures
        distinct_seqs(acc) ==> distinct_seqs(add_headers(acc, e)),
        add_headers(acc, e).len() >= acc.len(),
        forall|i: int| 0 <= i < acc.len() ==> add_headers(acc, e)[i] == acc[i],
        forall|r: Seq<char>| seq_has(acc, r) ==> seq_has(add_headers(acc, e), r),
    decreases e,
{
    match e {
        Expression::Not(x) => {
            lemma_add_headers_distinct(acc, *x);
            lemma_push_unless_present(add_headers(acc, *x), render_of(e@));
        },
        Expression::Binary { left, right, .. } => {
            lemma_add_headers_distinct(acc, *left);
            lemma_add_headers_distinct(add_headers(acc, *left), *right);
            lemma_push_unless_present(add_headers(add_headers(acc, *left), *right), render_of(e@));
        },
        Expression::Atomic(_) => {
            lemma_push_unless_present(acc, render_of(e@));
        },
    }
}

proof fn lemma_push_unless_present(acc: Seq<Seq<char>>, r: Seq<char>)
    ensures
        distinct_seqs(acc) ==> distinct_seqs(push_unless_present(acc, r)),
        push_unless_present(acc, r).len() >= acc.len(),
        forall|i: int| 0 <= i < acc.len() ==> push_unless_present(acc, r)[i] == acc[i],
        forall|x: Seq<char>| seq_has(acc, x) ==> seq_has(push_unless_present(acc, r), x),
        seq_has(push_unless_present(acc, r), r),
{
    if !seq_has(acc, r) {
        assert(push_unless_present(acc, r)[acc.len() as int] == r);
        assert forall|x: Seq<char>| seq_has(acc, x) implies seq_has(
            push_unless_present(acc, r),
            x,
        ) by {
            let i = choose|i: int| 0 <= i < acc.len() && acc[i] == x;
            assert(push_unless_present(acc, r)[i] == x);
        }
    }
}

/// The one position where context changes a rendering is a disjunction
/// under a conjunction, which gains two parentheses; no context shortens a
/// rendering.
proof fn lemma_render_ctx_len(v: crate::expression::ExpressionView)
    ensures
        crate::render::render_view(v, true).len() >= crate::render::render_view(v, false).len(),
{
}

/// A direct operand always renders strictly shorter than its parent.
proof fn lemma_render_child_shorter(e: Expression)
    ensures
        e matches Expression::Not(x) ==> render_of((*x)@).len() < render_of(e@).len(),
        e matches Expression::Binary { left, right, .. } ==> render_of((*left)@).len()
            < render_of(e@).len() && render_of((*right)@).len() < render_of(e@).len(),
{
    match e {
        Expression::Not(x) => {},
        Expression::Binary { left, right, .. } => {
            lemma_render_ctx_len((*left)@);
            lemma_render_ctx_len((*right)@);
        },
        Expression::Atomic(_) => {},
    }
}

/// Every entry a visit adds is at most as long as the rendering of the
/// visited tree, which comes last.
proof fn lemma_add_headers_len_bound(acc: Seq<Seq<char>>, e: Expression)
    ensures
        forall|i: int| acc.len() <= i < add_headers(acc, e).len() ==> #[trigger] add_headers(
            acc,
            e,
        )[i].len() <= render_of(e@).len(),
    decreases e,
{
    lemma_add_headers_distinct(acc, e);
    lemma_render_child_shorter(e);
    match e {
        Expression::Not(x) => {
            lemma_add_headers_len_bound(acc, *x);
            assert forall|i: int|
                acc.len() <= i < add_headers(acc, e).len() implies #[trigger] add_headers(
                acc,
                e,
            )[i].len() <= render_of(e@).len() by {
                if i < add_headers(acc, *x).len() {
                    assert(add_headers(acc, *x)[i].len() <= render_of((*x)@).len());
                    assert(add_headers(acc, e)[i] == add_headers(acc, *x)[i]);
                } else {
                    assert(add_headers(acc, e)[i] == render_of(e@));
                }
            }
        },
        Expression::Binary { left, right, .. } => {
            lemma_add_headers_len_bound(acc, *left);
            lemma_add_headers_distinct(acc, *left);
            lemma_add_headers_len_bound(add_headers(acc, *left), *right);
            lemma_add_headers_distinct(add_headers(acc, *left), *right);
            assert forall|i: int|
                acc.len() <= i < add_headers(acc, e).len() implies #[trigger] add_headers(
                acc,
                e,
            )[i].len() <= render_of(e@).len() by {
                let mid_len = add_headers(acc, *left).len();
                let prev_len = add_headers(add_headers(acc, *left), *right).len();
                if i < mid_len {
                    assert(add_headers(acc, *left)[i].len() <= render_of((*left)@).len());
                    assert(add_headers(add_headers(acc, *left), *right)[i] == add_headers(
                        acc,
                        *left,
                    )[i]);
                    assert(add_headers(acc, e)[i] == add_headers(
                        add_headers(acc, *left),
                        *right,
                    )[i]);
                } else if i < prev_len {
                    assert(add_headers(add_headers(acc, *left), *right)[i].len() <= render_of(
                        (*right)@,
                    ).len());
                    assert(add_headers(acc, e)[i] == add_headers(
                        add_headers(acc, *left),
                        *right,
                    )[i]);
                } else {
                    assert(add_headers(acc, e)[i] == render_of(e@));
                }
            }
        },
        Expression::Atomic(_) => {
            assert forall|i: int|
                acc.len() <= i < add_headers(acc, e).len() implies #[trigger] add_headers(
                acc,
                e,
            )[i].len() <= render_of(e@).len() by {
                assert(add_headers(acc, e)[i] == render_of(e@));
            }
        },
    }
}

/// The rendering of the whole tree is always the final header element.
pub proof fn lemma_header_ends_with_root(e: Expression)
    ensures
        headers_of(e).len() >= 1,
        headers_of(e).last() == render_of(e@),
    decreases e,
{
    lemma_render_child_shorter(e);
    let acc = Seq::<Seq<char>>::empty();
    match e {
        Expression::Not(x) => {
            lemma_add_headers_len_bound(acc, *x);
            assert forall|i: int|
                0 <= i < add_headers(acc, *x).len() implies #[trigger] add_headers(acc, *x)[i]
                != render_of(e@) by {
                assert(add_headers(acc, *x)[i].len() <= render_of((*x)@).len());
            }
            assert(!seq_has(add_headers(acc, *x), render_of(e@)));
        },
        Expression::Binary { left, right, .. } => {
            lemma_add_headers_len_bound(acc, *left);
            lemma_add_headers_distinct(acc, *left);
            lemma_add_headers_len_bound(add_headers(acc, *left), *right);
            lemma_add_headers_distinct(add_headers(acc, *left), *right);
            assert forall|i: int|
                0 <= i < add_headers(add_headers(acc, *left), *right).len() implies #[trigger] add_headers(
                add_headers(acc, *left),
                *right,
            )[i] != render_of(e@) by {
                if i < add_headers(acc, *left).len() {
                    assert(add_headers(add_headers(acc, *left), *right)[i] == add_headers(
                        acc,
                        *left,
                    )[i]);
                    assert(add_headers(acc, *left)[i].len() <= render_of((*left)@).len());
                } else {
                    assert(add_headers(add_headers(acc, *left), *right)[i].len() <= render_of(
                        (*right)@,
                    ).len());
                }
            }
            assert(!seq_has(add_headers(add_headers(acc, *left), *right), render_of(e@)));
        },
        Expression::Atomic(_) => {
            assert(!seq_has(acc, render_of(e@)));
        },
    }
}

/// Whether the string holds one of the three binary-connective symbols.
pub open spec fn has_op_char(s: Seq<char>) -> bool {
    exists|i: int| 0 <= i < s.len() && (s[i] == '\u{22c0}' || s[i] == '\u{22c1}' || s[i]
        == '\u{2794}')
}

/// The header with every column dropped whose string holds an operator
/// symbol, except the final column.
pub open spec fn filter_header(h: Seq<Seq<char>>) -> Seq<Seq<char>>
    decreases h.len(),
{
    if h.len() == 0 {
        Seq::empty()
    } else {
        let prefix = filter_header_prefix(h.drop_last(), h.len() - 1);
        prefix + seq![h.last()]
    }
}

/// The non-final columns kept: those without an operator symbol.
pub open spec fn filter_header_prefix(h: Seq<Seq<char>>, n: int) -> Seq<Seq<char>>
    decreases h.len(),
{
    if h.len() == 0 {
        Seq::empty()
    } else {
        filter_header_prefix(h.drop_last(), n) + (if has_op_char(h.last()) {
            Seq::<Seq<char>>::empty()
        } else {
            seq![h.last()]
        })
    }
}

impl TruthTable {
    /// Whether the rendering holds a binary-connective symbol, which is what
    /// distinguishes a compound column from a variable or negated-variable
    /// column.
    pub fn contains_operator(slice: &str) -> (r: bool)
        ensures
            r == has_op_char(slice@),
    {
        let n = slice.unicode_len();
        let mut i: usize = 0;
        while i < n
            invariant
                n == slice@.len(),
                0 <= i <= n,
                forall|j: int| 0 <= j < i ==> !(slice@[j] == '\u{22c0}' || slice@[j] == '\u{22c1}'
                    || slice@[j] == '\u{2794}'),
            decreases n - i,
        {
            let c = slice.get_char(i);
            if c == '\u{22c0}' || c == '\u{22c1}' || c == '\u{2794}' {
                return true;
            }
            i = i + 1;
        }
        false
    }

    /// Extracts the header: the canonical renderings of all distinct
    /// sub-expressions, children before parents, first occurrence kept. The
    /// root's rendering is always the final element.
    pub fn extract_header(expression: &Expression) -> (r: Vec<String>)
        ensures
            str_views(r@) == headers_of(*expression),
            distinct_seqs(str_views(r@)),
            r@.len() >= 1,
            str_views(r@).last() == render_of(expression@),
    {
        let mut out: Vec<String> = Vec::new();
        proof {
            assert(str_views(out@) =~= Seq::<Seq<char>>::empty());
        }
        Self::push_headers(expression, &mut out);
        proof {
            assert(str_views(out@) =~= headers_of(*expression));
            lemma_add_headers_distinct(Seq::empty(), *expression);
            lemma_header_ends_with_root(*expression);
        }
        out
    }

    /// Appends the renderings of `expression`'s sub-expressions in
    /// post-order, skipping those already present.
    fn push_headers(expression: &Expression, out: &mut Vec<String>)
        ensures
            str_views(final(out)@) == add_headers(str_views(old(out)@), *expression),
        decreases *expression,
    {
        match expression {
            Expression::Not(x) => {
                Self::push_headers(x, out);
            },
            Expression::Binary { left, right, .. } => {
                Self::push_headers(left, out);
                Self::push_headers(right, out);
            },
            Expression::Atomic(_) => {},
        }
        let rendering = expression.render();
        let ghost prev = out@;
        let ghost rv = rendering@;
        let present = crate::expression::contains_name(out, &rendering);
        proof {
            if present {
                let i = choose|i: int| 0 <= i < prev.len() && #[trigger] prev[i]@ == rv;
                assert(str_views(prev)[i] == rv);
                assert(seq_has(str_views(prev), rv));
            } else {
                assert forall|i: int| 0 <= i < str_views(prev).len() implies #[trigger] str_views(
                    prev,
                )[i] != rv by {
                    assert(prev[i]@ != rv);
                }
                assert(!seq_has(str_views(prev), rv));
            }
        }
        if !present {
            out.push(rendering);
            proof {
                assert(str_views(out@) =~= str_views(prev).push(rv));
                assert(str_views(out@) =~= add_headers(str_views(old(out)@), *expression));
            }
        } else {
            proof {
                assert(str_views(out@) =~= add_headers(str_views(old(out)@), *expression));
            }
        }
    }

    /// Drops every intermediate column: one whose string holds an operator
    /// symbol and which is not the final column.
    pub fn remove_non_atomic_from_header(header: &Vec<String>) -> (r: Vec<String>)
        ensures
            str_views(r@) == filter_header(str_views(header@)),
    {
        let mut out: Vec<String> = Vec::new();
        let n = header.len();
        if n == 0 {
            proof {
                assert(str_views(out@) =~= filter_header(str_views(header@)));
            }
            return out;
        }
        let mut i: usize = 0;
        while i < n - 1
            invariant
                n == header@.len(),
                n >= 1,
                0 <= i <= n - 1,
                str_views(out@) == filter_header_prefix(
                    str_views(header@).subrange(0, i as int),
                    n - 1,
                ),
            decreases n - i,
        {
            if !Self::contains_operator(header[i].as_str()) {
                out.push(header[i].clone());
            }
            proof {
                assert(str_views(header@).subrange(0, i + 1).drop_last() =~= str_views(
                    header@,
                ).subrange(0, i as int));
                assert(str_views(out@) =~= filter_header_prefix(
                    str_views(header@).subrange(0, i + 1),
                    n - 1,
                ));
            }
            i = i + 1;
        }
        out.push(header[n - 1].clone());
        proof {
            assert(str_views(header@).subrange(0, n - 1) =~= str_views(header@).drop_last());
            assert(str_views(out@) =~= filter_header(str_views(header@)));
        }
        out
    }
}


/// Lexicographic order on character sequences, by code point.
pub open spec fn lex_lt(a: Seq<char>, b: Seq<char>) -> bool
    decreases a.len(),
{
    if b.len() == 0 {
        false
    } else if a.len() == 0 {
        true
    } else if (a[0] as u32) < (b[0] as u32) {
        true
    } else if (a[0] as u32) > (b[0] as u32) {
        false
    } else {
        lex_lt(a.subrange(1, a.len() as int), b.subrange(1, b.len() as int))
    }
}

/// Inserts `x` before the first element greater than it.
pub open spec fn insert_sorted(s: Seq<Seq<char>>, x: Seq<char>) -> Seq<Seq<char>>
    decreases s.len(),
{
    if s.len() == 0 {
        seq![x]
    } else if lex_lt(x, s.first()) {
        seq![x] + s
    } else {
        seq![s.first()] + insert_sorted(s.drop_first(), x)
    }
}

/// Insertion sort of a sequence of names, left to right.
pub open spec fn sort_names(s: Seq<Seq<char>>) -> Seq<Seq<char>>
    decreases s.len(),
{
    if s.len() == 0 {
        Seq::empty()
    } else {
        insert_sorted(sort_names(s.drop_last()), s.last())
    }
}

/// The variable names of `e`, alphabetically sorted; this fixes both the
/// column order and the assignment-bit order of the truth table.
pub open spec fn sorted_atoms_of(e: Expression) -> Seq<Seq<char>> {
    sort_names(add_atoms(Seq::empty(), e))
}

/// Compares two names lexicographically by code point.
fn str_lt(a: &String, b: &String) -> (r: bool)
    ensures
        r == lex_lt(a@, b@),
    decreases a@.len(),
{
    let alen = a.as_str().unicode_len();
    let blen = b.as_str().unicode_len();
    let mut i: usize = 0;
    proof {
        assert(a@.subrange(0, alen as int) =~= a@);
        assert(b@.subrange(0, blen as int) =~= b@);
    }
    loop
        invariant
            alen == a@.len(),
            blen == b@.len(),
            0 <= i <= alen,
            i <= blen,
            lex_lt(a@, b@) == lex_lt(a@.subrange(i as int, alen as int), b@.subrange(i as int, blen as int)),
        decreases alen - i,
    {
        if i >= blen {
            proof {
                assert(b@.subrange(i as int, blen as int).len() == 0);
            }
            return false;
        }
        if i >= alen {
            proof {
                assert(a@.subrange(i as int, alen as int).len() == 0);
                assert(b@.subrange(i as int, blen as int).len() > 0);
            }
            return true;
        }
        let ca = a.as_str().get_char(i) as u32;
        let cb = b.as_str().get_char(i) as u32;
        proof {
            let suba = a@.subrange(i as int, alen as int);
            let subb = b@.subrange(i as int, blen as int);
            assert(suba[0] == a@[i as int]);
            assert(subb[0] == b@[i as int]);
            assert(suba.subrange(1, suba.len() as int) =~= a@.subrange(i + 1, alen as int));
            assert(subb.subrange(1, subb.len() as int) =~= b@.subrange(i + 1, blen as int));
        }
        if ca < cb {
            return true;
        }
        if ca > cb {
            return false;
        }
        proof {
            assert(a@[i as int] as u32 == b@[i as int] as u32);
            assert(a@[i as int] == b@[i as int]) by {
                assert(a@[i as int] as u32 == b@[i as int] as u32);
                assert(a@[i as int] as char == a@[i as int]);
            }
        }
        i = i + 1;
    }
}

/// Sorts a list of names alphabetically by insertion.
fn sort_string_vec(v: &Vec<String>) -> (r: Vec<String>)
    ensures
        str_views(r@) == sort_names(str_views(v@)),
    decreases v@.len(),
{
    let mut out: Vec<String> = Vec::new();
    proof {
        assert(str_views(out@) =~= sort_names(str_views(v@).subrange(0, 0)));
    }
    let mut i: usize = 0;
    while i < v.len()
        invariant
            0 <= i <= v@.len(),
            str_views(out@) == sort_names(str_views(v@).subrange(0, i as int)),
        decreases v@.len() - i,
    {
        let x = v[i].clone();
        let ghost old_out = out@;
        let j = insert_position(&out, &x);
        out.insert(j, x);
        proof {
            lemma_insert_at_position(str_views(old_out), x@, j as int);
            assert(str_views(out@) =~= str_views(old_out).insert(j as int, x@));
            assert(str_views(v@).subrange(0, i + 1).drop_last() =~= str_views(v@).subrange(
                0,
                i as int,
            ));
            assert(str_views(v@).subrange(0, i + 1).last() == x@);
            assert(str_views(out@) =~= sort_names(str_views(v@).subrange(0, i + 1)));
        }
        i = i + 1;
    }
    proof {
        assert(str_views(v@).subrange(0, v@.len() as int) =~= str_views(v@));
    }
    out
}

/// The position before the first element greater than `x`.
fn insert_position(out: &Vec<String>, x: &String) -> (j: usize)
    ensures
        0 <= j <= out@.len(),
        forall|k: int| 0 <= k < j ==> !lex_lt(x@, out@[k]@),
        j < out@.len() ==> lex_lt(x@, out@[j as int]@),
{
    let mut j: usize = 0;
    while j < out.len()
        invariant
            0 <= j <= out@.len(),
            forall|k: int| 0 <= k < j ==> !lex_lt(x@, out@[k]@),
        decreases out@.len() - j,
    {
        if str_lt(x, &out[j]) {
            return j;
        }
        j = j + 1;
    }
    j
}

/// Inserting before the first greater element is what [`insert_sorted`]
/// does, whatever elements follow the position.
proof fn lemma_insert_at_position(s: Seq<Seq<char>>, x: Seq<char>, j: int)
    requires
        0 <= j <= s.len(),
        forall|k: int| 0 <= k < j ==> !lex_lt(x, s[k]),
        j < s.len() ==> lex_lt(x, s[j]),
    ensures
        insert_sorted(s, x) == s.insert(j, x),
    decreases s.len(),
{
    if s.len() == 0 {
        assert(insert_sorted(s, x) =~= s.insert(0, x));
    } else if lex_lt(x, s.first()) {
        assert(j == 0);
        assert(insert_sorted(s, x) =~= s.insert(0, x));
    } else {
        assert(j >= 1);
        lemma_insert_at_position(s.drop_first(), x, j - 1);
        assert(insert_sorted(s, x) =~= s.insert(j, x)) by {
            assert(insert_sorted(s, x) == seq![s.first()] + insert_sorted(s.drop_first(), x));
            assert(insert_sorted(s.drop_first(), x) == s.drop_first().insert(j - 1, x));
            assert forall|m: int| 0 <= m < s.len() + 1 implies (seq![s.first()]
                + s.drop_first().insert(j - 1, x))[m] == s.insert(j, x)[m] by {
            }
        }
    }
}

/// The assignment a row index denotes: bit `j`, counted from the most
/// significant of `n` bits, is true when the bit of `i` is zero, so the
/// all-true row comes first and the all-false row last.
pub open spec fn row_bits(n: nat, i: int) -> Seq<bool> {
    Seq::new(n, |j: int| (i / pow2((n - 1 - j) as nat) as int) % 2 == 0)
}

/// Two raised to `n`.
pub open spec fn pow2(n: nat) -> nat
    decreases n,
{
    if n == 0 {
        1
    } else {
        2 * pow2((n - 1) as nat)
    }
}

/// The assignment that maps the name at each position of `names` to the
/// boolean at the same position of `values`.
pub open spec fn env_from(names: Seq<Seq<char>>, values: Seq<bool>) -> Map<Seq<char>, bool> {
    Map::new(|k: Seq<char>| seq_has(names, k), |k: Seq<char>| values[name_index(names, k)])
}

/// The position of `k` in `names`.
pub open spec fn name_index(names: Seq<Seq<char>>, k: Seq<char>) -> int {
    choose|i: int| 0 <= i < names.len() && names[i] == k
}


/// The value cells matching [`add_headers`]: the truth value of each
/// sub-expression whose rendering is newly seen, in the same order. A later
/// sub-expression with an already-seen rendering adds no cell.
pub open spec fn add_cell_vals(
    keys: Seq<Seq<char>>,
    vals: Seq<bool>,
    e: Expression,
    env: Map<Seq<char>, bool>,
) -> Seq<bool>
    decreases e,
{
    match e {
        Expression::Not(x) => {
            let v1 = add_cell_vals(keys, vals, *x, env);
            let k1 = add_headers(keys, *x);
            if seq_has(k1, render_of(e@)) {
                v1
            } else {
                v1.push(eval_view(e@, env))
            }
        },
        Expression::Binary { left, right, .. } => {
            let v1 = add_cell_vals(keys, vals, *left, env);
            let k1 = add_headers(keys, *left);
            let v2 = add_cell_vals(k1, v1, *right, env);
            let k2 = add_headers(k1, *right);
            if seq_has(k2, render_of(e@)) {
                v2
            } else {
                v2.push(eval_view(e@, env))
            }
        },
        Expression::Atomic(_) => {
            if seq_has(keys, render_of(e@)) {
                vals
            } else {
                vals.push(eval_view(e@, env))
            }
        },
    }
}

/// The cells stay aligned: visiting a tree adds exactly as many values as
/// renderings.
pub proof fn lemma_cell_vals_len(
    keys: Seq<Seq<char>>,
    vals: Seq<bool>,
    e: Expression,
    env: Map<Seq<char>, bool>,
)
    requires
        vals.len() == keys.len(),
    ensures
        add_cell_vals(keys, vals, e, env).len() == add_headers(keys, e).len(),
    decreases e,
{
    match e {
        Expression::Not(x) => {
            lemma_cell_vals_len(keys, vals, *x, env);
        },
        Expression::Binary { left, right, .. } => {
            lemma_cell_vals_len(keys, vals, *left, env);
            lemma_cell_vals_len(
                add_headers(keys, *left),
                add_cell_vals(keys, vals, *left, env),
                *right,
                env,
            );
        },
        Expression::Atomic(_) => {},
    }
}

/// The cell values of a whole tree, aligned with [`headers_of`].
pub open spec fn row_vals(e: Expression, env: Map<Seq<char>, bool>) -> Seq<bool> {
    add_cell_vals(Seq::empty(), Seq::empty(), e, env)
}

/// The position of `h` among the keys.
pub open spec fn key_index(keys: Seq<Seq<char>>, h: Seq<char>) -> int {
    choose|j: int| 0 <= j < keys.len() && keys[j] == h
}

/// One matrix row: for each header string present among the keys — and,
/// when intermediate columns are hidden, free of operator symbols or equal
/// to `top` — the value of its cell.
pub open spec fn project_row(
    header: Seq<Seq<char>>,
    keys: Seq<Seq<char>>,
    vals: Seq<bool>,
    hide_intermediate: bool,
    top: Seq<char>,
) -> Seq<bool>
    decreases header.len(),
{
    if header.len() == 0 {
        Seq::empty()
    } else {
        project_row(header.drop_last(), keys, vals, hide_intermediate, top) + (if seq_has(
            keys,
            header.last(),
        ) && (!hide_intermediate || !has_op_char(header.last()) || header.last() == top) {
            seq![vals[key_index(keys, header.last())]]
        } else {
            Seq::<bool>::empty()
        })
    }
}

/// The value a name is assigned: the boolean at its position.
fn lookup_value(names: &Vec<String>, values: &Vec<bool>, key: &String) -> (r: bool)
    requires
        forall|i: int, j: int| 0 <= i < j < names@.len() ==> names@[i]@ != names@[j]@,
        values@.len() == names@.len(),
        has_name(names@, key@),
    ensures
        r == env_from(str_views(names@), values@)[key@],
{
    let n = names.len();
    let mut i: usize = 0;
    while i < n
        invariant
            n == names@.len(),
            values@.len() == names@.len(),
            0 <= i <= n,
            has_name(names@, key@),
            forall|i: int, j: int| 0 <= i < j < names@.len() ==> names@[i]@ != names@[j]@,
            forall|j: int| 0 <= j < i ==> names@[j]@ != key@,
        decreases n - i,
    {
        if names[i].eq(key) {
            proof {
                assert(str_views(names@)[i as int] == key@);
                assert(seq_has(str_views(names@), key@));
                let ci = name_index(str_views(names@), key@);
                assert(0 <= ci < names@.len() && str_views(names@)[ci] == key@);
                assert(names@[ci]@ == key@);
                assert(ci == i);
            }
            return values[i];
        }
        i = i + 1;
    }
    proof {
        let w = choose|j: int| 0 <= j < names@.len() && #[trigger] names@[j]@ == key@;
        assert(false);
    }
    false
}

impl Expression {
    /// Evaluates every distinct sub-expression bottom-up, appending each
    /// newly seen rendering and its truth value to the parallel `seen` and
    /// `vals` lists, and returns the truth value of the whole tree.
    fn eval_cells(
        &self,
        names: &Vec<String>,
        values: &Vec<bool>,
        seen: &mut Vec<String>,
        vals: &mut Vec<bool>,
    ) -> (v: bool)
        requires
            forall|i: int, j: int| 0 <= i < j < names@.len() ==> names@[i]@ != names@[j]@,
            values@.len() == names@.len(),
            forall|n: Seq<char>| atom_set(self@).contains(n) ==> #[trigger] has_name(names@, n),
        ensures
            v == eval_view(self@, env_from(str_views(names@), values@)),
            str_views(final(seen)@) == add_headers(str_views(old(seen)@), *self),
            final(vals)@ == add_cell_vals(
                str_views(old(seen)@),
                old(vals)@,
                *self,
                env_from(str_views(names@), values@),
            ),
        decreases *self,
    {
        let v: bool;
        match self {
            Expression::Not(x) => {
                let inner = x.eval_cells(names, values, seen, vals);
                v = !inner;
                proof {
                    assert(eval_view(self@, env_from(str_views(names@), values@)) == !eval_view(
                        x@,
                        env_from(str_views(names@), values@),
                    ));
                }
            },
            Expression::Binary { left, operator, right } => {
                proof {
                    assert forall|n: Seq<char>|
                        atom_set(left@).contains(n) implies #[trigger] has_name(names@, n) by {
                        assert(atom_set(self@).contains(n));
                    }
                    assert forall|n: Seq<char>|
                        atom_set(right@).contains(n) implies #[trigger] has_name(names@, n) by {
                        assert(atom_set(self@).contains(n));
                    }
                }
                let vl = left.eval_cells(names, values, seen, vals);
                let vr = right.eval_cells(names, values, seen, vals);
                v = operator.eval(vl, vr);
                proof {
                    assert(eval_view(self@, env_from(str_views(names@), values@))
                        == operator.eval_spec(
                        eval_view(left@, env_from(str_views(names@), values@)),
                        eval_view(right@, env_from(str_views(names@), values@)),
                    ));
                }
            },
            Expression::Atomic(value) => {
                proof {
                    assert(atom_set(self@).contains(value@));
                }
                v = lookup_value(names, values, value);
                proof {
                    assert(eval_view(self@, env_from(str_views(names@), values@)) == env_from(
                        str_views(names@),
                        values@,
                    )[value@]);
                }
            },
        }
        let rendering = self.render();
        let ghost prev = seen@;
        let ghost prev_vals = vals@;
        let ghost rv = rendering@;
        let present = crate::expression::contains_name(seen, &rendering);
        proof {
            if present {
                let i = choose|i: int| 0 <= i < prev.len() && #[trigger] prev[i]@ == rv;
                assert(str_views(prev)[i] == rv);
                assert(seq_has(str_views(prev), rv));
            } else {
                assert forall|i: int| 0 <= i < str_views(prev).len() implies #[trigger] str_views(
                    prev,
                )[i] != rv by {
                    assert(prev[i]@ != rv);
                }
                assert(!seq_has(str_views(prev), rv));
            }
        }
        if !present {
            seen.push(rendering);
            vals.push(v);
            proof {
                assert(str_views(seen@) =~= str_views(prev).push(rv));
                assert(str_views(seen@) =~= add_headers(str_views(old(seen)@), *self));
                assert(vals@ =~= add_cell_vals(
                    str_views(old(seen)@),
                    old(vals)@,
                    *self,
                    env_from(str_views(names@), values@),
                ));
            }
        } else {
            proof {
                assert(str_views(seen@) =~= add_headers(str_views(old(seen)@), *self));
                assert(vals@ =~= add_cell_vals(
                    str_views(old(seen)@),
                    old(vals)@,
                    *self,
                    env_from(str_views(names@), values@),
                ));
            }
        }
        v
    }
}

/// The first position of `h` among the renderings, if present.
fn find_key(seen: &Vec<String>, h: &String) -> (r: Option<usize>)
    ensures
        r matches Some(p) ==> 0 <= p < seen@.len() && seen@[p as int]@ == h@ && forall|k: int|
            0 <= k < p ==> seen@[k]@ != h@,
        r is None ==> !seq_has(str_views(seen@), h@),
{
    let n = seen.len();
    let mut i: usize = 0;
    while i < n
        invariant
            n == seen@.len(),
            0 <= i <= n,
            forall|k: int| 0 <= k < i ==> seen@[k]@ != h@,
        decreases n - i,
    {
        if seen[i].eq(h) {
            return Some(i);
        }
        i = i + 1;
    }
    proof {
        assert forall|i: int| 0 <= i < str_views(seen@).len() implies #[trigger] str_views(
            seen@,
        )[i] != h@ by {
            assert(seen@[i]@ != h@);
        }
    }
    None
}

impl TruthTable {
    /// Evaluates `expression` under the assignment given by the parallel
    /// `names` and `values` lists, and projects the values of its distinct
    /// sub-expressions onto the given header; with `hide_intermediate`, only
    /// the columns free of operator symbols and the final column are kept.
    pub fn resolve_expression(
        expression: &Expression,
        names: &Vec<String>,
        values: &Vec<bool>,
        header: &Vec<String>,
        hide_intermediate: bool,
    ) -> (r: Vec<bool>)
        requires
            forall|i: int, j: int| 0 <= i < j < names@.len() ==> names@[i]@ != names@[j]@,
            values@.len() == names@.len(),
            forall|n: Seq<char>| atom_set(expression@).contains(n) ==> #[trigger] has_name(
                names@,
                n,
            ),
        ensures
            r@ == project_row(
                str_views(header@),
                headers_of(*expression),
                row_vals(*expression, env_from(str_views(names@), values@)),
                hide_intermediate,
                if header@.len() == 0 {
                    Seq::empty()
                } else {
                    str_views(header@).last()
                },
            ),
    {
        let hn = header.len();
        let mut out: Vec<bool> = Vec::new();
        if hn == 0 {
            proof {
                assert(out@ =~= project_row(
                    str_views(header@),
                    headers_of(*expression),
                    row_vals(*expression, env_from(str_views(names@), values@)),
                    hide_intermediate,
                    Seq::empty(),
                ));
            }
            return out;
        }
        let mut seen: Vec<String> = Vec::new();
        let mut vals: Vec<bool> = Vec::new();
        proof {
            assert(str_views(seen@) =~= Seq::<Seq<char>>::empty());
        }
        let _ = expression.eval_cells(names, values, &mut seen, &mut vals);
        proof {
            lemma_add_headers_distinct(Seq::empty(), *expression);
            lemma_cell_vals_len(
                Seq::empty(),
                Seq::empty(),
                *expression,
                env_from(str_views(names@), values@),
            );
        }
        let ghost keys = headers_of(*expression);
        let ghost cvals = row_vals(*expression, env_from(str_views(names@), values@));
        let ghost top = str_views(header@).last();
        proof {
            assert(top == header@[hn - 1]@);
        }
        let mut idx: usize = 0;
        while idx < hn
            invariant
                hn == header@.len(),
                hn >= 1,
                0 <= idx <= hn,
                str_views(seen@) == keys,
                vals@ == cvals,
                seen@.len() == keys.len(),
                vals@.len() == keys.len(),
                distinct_seqs(keys),
                top == str_views(header@).last(),
                out@ == project_row(
                    str_views(header@).subrange(0, idx as int),
                    keys,
                    cvals,
                    hide_intermediate,
                    top,
                ),
            decreases hn - idx,
        {
            let h = &header[idx];
            if let Some(p) = find_key(&seen, h) {
                proof {
                    assert(str_views(seen@)[p as int] == h@);
                    assert(seq_has(keys, h@));
                    let ci = key_index(keys, h@);
                    assert(0 <= ci < keys.len() && keys[ci] == h@);
                    assert(ci == p);
                }
                let hs = h.as_str();
                proof {
                    assert(hs@ == h@);
                }
                let h_has_op = Self::contains_operator(hs);
                let h_is_top = (*h).eq(&header[hn - 1]);
                proof {
                    assert(h_has_op == has_op_char(h@));
                    assert(h_is_top == (h@ == header@[hn - 1]@));
                    assert(top == str_views(header@)[hn - 1]);
                    assert(str_views(header@)[hn - 1] == header@[hn - 1]@);
                    assert(h_is_top == (h@ == top));
                }
                let keep = if hide_intermediate {
                    !h_has_op || h_is_top
                } else {
                    true
                };
                if keep {
                    out.push(vals[p]);
                    proof {
                        assert(out@.last() == cvals[key_index(keys, h@)]);
                    }
                }
                proof {
                    if hide_intermediate {
                        assert(keep == (!has_op_char(h@) || h@ == top));
                    }
                }
            } else {
                proof {
                    assert(!seq_has(keys, h@));
                }
            }
            proof {
                assert(str_views(header@).subrange(0, idx + 1).drop_last() =~= str_views(
                    header@,
                ).subrange(0, idx as int));
                assert(str_views(header@).subrange(0, idx + 1).last() == h@);
                assert(out@ =~= project_row(
                    str_views(header@).subrange(0, idx + 1),
                    keys,
                    cvals,
                    hide_intermediate,
                    top,
                ));
            }
            idx = idx + 1;
        }
        proof {
            assert(str_views(header@).subrange(0, hn as int) =~= str_views(header@));
        }
        out
    }
}


/// The number of distinct variable names in `e`.
pub open spec fn distinct_atom_count(e: Expression) -> nat {
    add_atoms(Seq::empty(), e).len()
}

/// Visiting a tree never shrinks the name list, and every tree holds at
/// least one variable.
pub proof fn lemma_add_atoms_len(acc: Seq<Seq<char>>, e: Expression)
    ensures
        add_atoms(acc, e).len() >= acc.len(),
        add_atoms(acc, e).len() >= 1,
    decreases e,
{
    match e {
        Expression::Not(x) => {
            lemma_add_atoms_len(acc, *x);
        },
        Expression::Binary { left, right, .. } => {
            lemma_add_atoms_len(acc, *left);
            lemma_add_atoms_len(add_atoms(acc, *left), *right);
        },
        Expression::Atomic(n) => {
            if seq_has(acc, n@) {
                let i = choose|i: int| 0 <= i < acc.len() && acc[i] == n@;
            }
        },
    }
}

/// Whether a row survives the `hide` option, by its final value.
pub open spec fn keep_row(row: Seq<bool>, hide: Hide) -> bool {
    match hide {
        Hide::Off => true,
        Hide::True => row.len() > 0 && row.last() == false,
        Hide::False => row.len() > 0 && row.last() == true,
    }
}

/// The row of assignment `i`: the distinct sub-expression values projected
/// onto the header.
pub open spec fn row_of(
    e: Expression,
    header: Seq<Seq<char>>,
    hide_intermediate: bool,
    atoms: Seq<Seq<char>>,
    i: int,
) -> Seq<bool> {
    project_row(
        header,
        headers_of(e),
        row_vals(e, env_from(atoms, row_bits(atoms.len(), i))),
        hide_intermediate,
        if header.len() == 0 {
            Seq::empty()
        } else {
            header.last()
        },
    )
}

/// The rows for assignments `lo` (inclusive) to `hi_end` (exclusive) that
/// survive the `hide` option, in enumeration order.
pub open spec fn rows_range(
    e: Expression,
    header: Seq<Seq<char>>,
    hide: Hide,
    hide_intermediate: bool,
    atoms: Seq<Seq<char>>,
    lo: int,
    hi_end: int,
) -> Seq<Seq<bool>>
    decreases hi_end - lo,
{
    if lo >= hi_end {
        Seq::empty()
    } else {
        (if keep_row(row_of(e, header, hide_intermediate, atoms, lo), hide) {
            seq![row_of(e, header, hide_intermediate, atoms, lo)]
        } else {
            Seq::<Seq<bool>>::empty()
        }) + rows_range(e, header, hide, hide_intermediate, atoms, lo + 1, hi_end)
    }
}

/// The whole matrix: one candidate row per assignment of the alphabetically
/// sorted variables, all-true first; an expression without variables has no
/// rows.
pub open spec fn matrix_spec(
    e: Expression,
    header: Seq<Seq<char>>,
    hide: Hide,
    hide_intermediate: bool,
) -> Seq<Seq<bool>> {
    if distinct_atom_count(e) == 0 {
        Seq::empty()
    } else {
        rows_range(
            e,
            header,
            hide,
            hide_intermediate,
            sorted_atoms_of(e),
            0,
            pow2(sorted_atoms_of(e).len()) as int,
        )
    }
}

/// The boolean contents of a sequence of rows.
pub open spec fn bool_rows(s: Seq<Vec<bool>>) -> Seq<Seq<bool>> {
    s.map_values(|v: Vec<bool>| v@)
}

/// Extending the range by one assignment appends its row, when kept.
proof fn lemma_rows_range_snoc(
    e: Expression,
    header: Seq<Seq<char>>,
    hide: Hide,
    hide_intermediate: bool,
    atoms: Seq<Seq<char>>,
    lo: int,
    hi_end: int,
)
    requires
        lo <= hi_end,
    ensures
        rows_range(e, header, hide, hide_intermediate, atoms, lo, hi_end + 1) == rows_range(
            e,
            header,
            hide,
            hide_intermediate,
            atoms,
            lo,
            hi_end,
        ) + (if keep_row(row_of(e, header, hide_intermediate, atoms, hi_end), hide) {
            seq![row_of(e, header, hide_intermediate, atoms, hi_end)]
        } else {
            Seq::<Seq<bool>>::empty()
        }),
    decreases hi_end - lo,
{
    if lo == hi_end {
        assert(rows_range(e, header, hide, hide_intermediate, atoms, lo, hi_end)
            =~= Seq::<Seq<bool>>::empty());
        assert(rows_range(e, header, hide, hide_intermediate, atoms, lo + 1, hi_end + 1)
            =~= Seq::<Seq<bool>>::empty());
        assert(rows_range(e, header, hide, hide_intermediate, atoms, lo, hi_end + 1)
            =~= Seq::<Seq<bool>>::empty() + (if keep_row(
            row_of(e, header, hide_intermediate, atoms, hi_end),
            hide,
        ) {
            seq![row_of(e, header, hide_intermediate, atoms, hi_end)]
        } else {
            Seq::<Seq<bool>>::empty()
        }));
    } else {
        lemma_rows_range_snoc(e, header, hide, hide_intermediate, atoms, lo + 1, hi_end);
        assert(rows_range(e, header, hide, hide_intermediate, atoms, lo, hi_end + 1)
            =~= rows_range(e, header, hide, hide_intermediate, atoms, lo, hi_end) + (if keep_row(
            row_of(e, header, hide_intermediate, atoms, hi_end),
            hide,
        ) {
            seq![row_of(e, header, hide_intermediate, atoms, hi_end)]
        } else {
            Seq::<Seq<bool>>::empty()
        }));
    }
}

/// Inserting into a name sequence keeps its length, contents and
/// distinctness.
proof fn lemma_insert_sorted_props(s: Seq<Seq<char>>, x: Seq<char>)
    ensures
        insert_sorted(s, x).len() == s.len() + 1,
        seq_has(insert_sorted(s, x), x),
        forall|y: Seq<char>| seq_has(insert_sorted(s, x), y) <==> (seq_has(s, y) || y == x),
        (distinct_seqs(s) && !seq_has(s, x)) ==> distinct_seqs(insert_sorted(s, x)),
    decreases s.len(),
{
    if s.len() == 0 {
        assert(insert_sorted(s, x)[0] == x);
        assert forall|y: Seq<char>| seq_has(insert_sorted(s, x), y) implies (seq_has(s, y) || y
            == x) by {
            let i = choose|i: int| 0 <= i < insert_sorted(s, x).len() && insert_sorted(s, x)[i]
                == y;
            assert(i == 0);
        }
    } else if lex_lt(x, s.first()) {
        let r = seq![x] + s;
        assert(r[0] == x);
        assert forall|y: Seq<char>| seq_has(r, y) implies (seq_has(s, y) || y == x) by {
            let i = choose|i: int| 0 <= i < r.len() && r[i] == y;
            if i > 0 {
                assert(s[i - 1] == y);
            }
        }
        assert forall|y: Seq<char>| (seq_has(s, y) || y == x) implies seq_has(r, y) by {
            if seq_has(s, y) {
                let i = choose|i: int| 0 <= i < s.len() && s[i] == y;
                assert(r[i + 1] == y);
            } else {
                assert(r[0] == y);
            }
        }
        if distinct_seqs(s) && !seq_has(s, x) {
            assert forall|i: int, j: int| 0 <= i < j < r.len() implies r[i] != r[j] by {
                if i == 0 {
                    assert(r[j] == s[j - 1]);
                    if r[0] == r[j] {
                        assert(seq_has(s, x));
                    }
                } else {
                    assert(r[i] == s[i - 1] && r[j] == s[j - 1]);
                }
            }
        }
    } else {
        lemma_insert_sorted_props(s.drop_first(), x);
        let rest = insert_sorted(s.drop_first(), x);
        let r = seq![s.first()] + rest;
        assert(r[0] == s.first());
        assert(seq_has(r, x)) by {
            let k = choose|k: int| 0 <= k < rest.len() && #[trigger] rest[k] == x;
            assert(r[k + 1] == x);
        }
        assert forall|y: Seq<char>| seq_has(r, y) implies (seq_has(s, y) || y == x) by {
            let i = choose|i: int| 0 <= i < r.len() && r[i] == y;
            if i == 0 {
                assert(s[0] == y);
            } else {
                assert(rest[i - 1] == y);
                assert(seq_has(rest, y));
                if seq_has(s.drop_first(), y) {
                    let k = choose|k: int| 0 <= k < s.drop_first().len() && s.drop_first()[k]
                        == y;
                    assert(s[k + 1] == y);
                }
            }
        }
        assert forall|y: Seq<char>| (seq_has(s, y) || y == x) implies seq_has(r, y) by {
            if seq_has(s, y) {
                let i = choose|i: int| 0 <= i < s.len() && s[i] == y;
                if i == 0 {
                    assert(r[0] == y);
                } else {
                    assert(s.drop_first()[i - 1] == y);
                    assert(seq_has(s.drop_first(), y));
                    assert(seq_has(rest, y));
                    let k = choose|k: int| 0 <= k < rest.len() && rest[k] == y;
                    assert(r[k + 1] == y);
                }
            } else {
                assert(seq_has(r, x));
            }
        }
        if distinct_seqs(s) && !seq_has(s, x) {
            assert forall|i: int| 0 <= i < s.drop_first().len() implies s.drop_first()[i]
                != s.first() by {
                assert(s.drop_first()[i] == s[i + 1]);
            }
            assert(distinct_seqs(s.drop_first()));
            assert(!seq_has(s.drop_first(), x)) by {
                if seq_has(s.drop_first(), x) {
                    let k = choose|k: int| 0 <= k < s.drop_first().len() && s.drop_first()[k]
                        == x;
                    assert(s[k + 1] == x);
                    assert(seq_has(s, x));
                }
            }
            assert(distinct_seqs(rest));
            assert(!seq_has(s.drop_first(), s.first()));
            assert(!seq_has(rest, s.first())) by {
                if s.first() == x {
                    assert(seq_has(s, x));
                }
            }
            assert forall|i: int, j: int| 0 <= i < j < r.len() implies r[i] != r[j] by {
                if i == 0 {
                    assert(r[j] == rest[j - 1]);
                    if r[0] == r[j] {
                        assert(seq_has(rest, s.first()));
                    }
                } else {
                    assert(r[i] == rest[i - 1] && r[j] == rest[j - 1]);
                }
            }
        }
    }
}

/// Sorting keeps the length, the contents and the distinctness of a name
/// sequence.
proof fn lemma_sort_names_props(s: Seq<Seq<char>>)
    ensures
        sort_names(s).len() == s.len(),
        forall|y: Seq<char>| seq_has(sort_names(s), y) <==> seq_has(s, y),
        distinct_seqs(s) ==> distinct_seqs(sort_names(s)),
    decreases s.len(),
{
    if s.len() == 0 {
    } else {
        lemma_sort_names_props(s.drop_last());
        lemma_insert_sorted_props(sort_names(s.drop_last()), s.last());
        assert forall|y: Seq<char>| seq_has(s.drop_last(), y) || y == s.last() implies seq_has(
            s,
            y,
        ) by {
            if seq_has(s.drop_last(), y) {
                let i = choose|i: int| 0 <= i < s.drop_last().len() && s.drop_last()[i] == y;
                assert(s[i] == y);
            } else {
                assert(s[s.len() - 1] == y);
            }
        }
        assert forall|y: Seq<char>| seq_has(s, y) implies (seq_has(s.drop_last(), y) || y
            == s.last()) by {
            let i = choose|i: int| 0 <= i < s.len() && s[i] == y;
            if i < s.len() - 1 {
                assert(s.drop_last()[i] == y);
            }
        }
        if distinct_seqs(s) {
            assert(distinct_seqs(s.drop_last()));
            assert(!seq_has(s.drop_last(), s.last())) by {
                if seq_has(s.drop_last(), s.last()) {
                    let i = choose|i: int| 0 <= i < s.drop_last().len() && s.drop_last()[i]
                        == s.last();
                    assert(s[i] == s[s.len() - 1]);
                }
            }
            assert(!seq_has(sort_names(s.drop_last()), s.last()));
        }
    }
}

/// Two raised to anything is positive, and the exponent orders the values.
pub proof fn lemma_pow2_pos(n: nat)
    ensures
        pow2(n) >= 1,
    decreases n,
{
    if n > 0 {
        lemma_pow2_pos((n - 1) as nat);
    }
}

proof fn lemma_pow2_le(a: nat, b: nat)
    requires
        a <= b,
    ensures
        pow2(a) <= pow2(b),
    decreases b,
{
    if a < b {
        lemma_pow2_le(a, (b - 1) as nat);
        lemma_pow2_pos((b - 1) as nat);
    }
}

/// Computes two raised to `n`.
fn pow2_exec(n: usize) -> (r: usize)
    requires
        n < 32,
    ensures
        r == pow2(n as nat),
{
    proof {
        lemma_pow2_le(n as nat, 31);
        assert(pow2(31) == 0x8000_0000) by {
            reveal_with_fuel(pow2, 32);
        }
    }
    let mut total: usize = 1;
    let mut j: usize = 0;
    while j < n
        invariant
            0 <= j <= n < 32,
            total == pow2(j as nat),
            total <= pow2(31),
        decreases n - j,
    {
        proof {
            lemma_pow2_le((j + 1) as nat, 31);
            assert(pow2(31) == 0x8000_0000) by {
            reveal_with_fuel(pow2, 32);
        }
        }
        total = total * 2;
        j = j + 1;
    }
    total
}

/// The bits of assignment `i` over `count` variables, most significant
/// first; a zero bit means true.
fn assignment_bits(i: usize, count: usize) -> (r: Vec<bool>)
    requires
        count < 32,
    ensures
        r@ == row_bits(count as nat, i as int),
{
    let mut out: Vec<bool> = Vec::new();
    let mut p: usize = pow2_exec(count);
    let mut j: usize = 0;
    while j < count
        invariant
            0 <= j <= count < 32,
            p == pow2((count - j) as nat),
            out@.len() == j,
            forall|k: int| 0 <= k < j ==> out@[k] == ((i as int / pow2(
                (count - 1 - k) as nat,
            ) as int) % 2 == 0),
        decreases count - j,
    {
        proof {
            lemma_pow2_pos((count - j - 1) as nat);
            assert(p == 2 * pow2((count - j - 1) as nat));
        }
        p = p / 2;
        let bit = (i / p) % 2 == 0;
        out.push(bit);
        j = j + 1;
    }
    proof {
        assert(out@ =~= row_bits(count as nat, i as int));
    }
    out
}

impl TruthTable {
    /// All `2^count` assignments over `count` variables, in canonical order:
    /// all-true first, all-false last.
    pub fn truth_combinations(count: usize) -> (r: Vec<Vec<bool>>)
        requires
            count < 32,
        ensures
            r@.len() == pow2(count as nat),
            forall|i: int| 0 <= i < r@.len() ==> r@[i]@ == row_bits(count as nat, i),
    {
        let total = pow2_exec(count);
        let mut out: Vec<Vec<bool>> = Vec::new();
        let mut i: usize = 0;
        while i < total
            invariant
                count < 32,
                total == pow2(count as nat),
                0 <= i <= total,
                out@.len() == i,
                forall|k: int| 0 <= k < i ==> out@[k]@ == row_bits(count as nat, k),
            decreases total - i,
        {
            let bits = assignment_bits(i, count);
            out.push(bits);
            i = i + 1;
        }
        out
    }

    /// Generates the matrix: for each assignment of the alphabetically
    /// sorted variables, the row of all distinct sub-expression values
    /// projected onto the header, keeping the rows the `hide` option allows.
    pub fn generate_truth_matrix(
        expression: &Expression,
        header: &Vec<String>,
        hide: Hide,
        hide_intermediate: bool,
    ) -> (r: Vec<Vec<bool>>)
        requires
            distinct_atom_count(*expression) < 32,
        ensures
            bool_rows(r@) == matrix_spec(*expression, str_views(header@), hide, hide_intermediate),
            hide is Off ==> r@.len() == pow2(distinct_atom_count(*expression)),
    {
        let atomics = expression.get_atomic_values();
        let mut out: Vec<Vec<bool>> = Vec::new();
        if atomics.len() == 0 {
            proof {
                lemma_add_atoms_len(Seq::empty(), *expression);
                assert(str_views(atomics@).len() == atomics@.len());
                assert(false);
            }
            return out;
        }
        let sorted = sort_string_vec(&atomics);
        proof {
            lemma_sort_names_props(str_views(atomics@));
            assert(distinct_seqs(str_views(atomics@))) by {
                assert forall|i: int, j: int|
                    0 <= i < j < str_views(atomics@).len() implies str_views(atomics@)[i]
                    != str_views(atomics@)[j] by {
                    assert(atomics@[i]@ != atomics@[j]@);
                }
            }
            assert forall|i: int, j: int|
                0 <= i < j < sorted@.len() implies sorted@[i]@ != sorted@[j]@ by {
                assert(str_views(sorted@)[i] != str_views(sorted@)[j]);
            }
            assert forall|n: Seq<char>|
                atom_set(expression@).contains(n) implies #[trigger] has_name(sorted@, n) by {
                assert(has_name(atomics@, n));
                let i = choose|i: int| 0 <= i < atomics@.len() && #[trigger] atomics@[i]@ == n;
                assert(str_views(atomics@)[i] == n);
                assert(seq_has(str_views(atomics@), n));
                assert(seq_has(str_views(sorted@), n));
                let k = choose|k: int| 0 <= k < str_views(sorted@).len() && str_views(sorted@)[k]
                    == n;
                assert(sorted@[k]@ == n);
            }
        }
        let ghost atoms = sorted_atoms_of(*expression);
        let n = sorted.len();
        let total = pow2_exec(n);
        let mut i: usize = 0;
        while i < total
            invariant
                n == sorted@.len(),
                n == atoms.len(),
                n < 32,
                str_views(sorted@) == atoms,
                forall|x: int, j: int| 0 <= x < j < sorted@.len() ==> sorted@[x]@ != sorted@[j]@,
                forall|m: Seq<char>| atom_set(expression@).contains(m) ==> #[trigger] has_name(
                    sorted@,
                    m,
                ),
                total == pow2(n as nat),
                0 <= i <= total,
                bool_rows(out@) == rows_range(
                    *expression,
                    str_views(header@),
                    hide,
                    hide_intermediate,
                    atoms,
                    0,
                    i as int,
                ),
                hide is Off ==> out@.len() == i,
            decreases total - i,
        {
            let bits = assignment_bits(i, n);
            let row = Self::resolve_expression(expression, &sorted, &bits, header,
                hide_intermediate);
            proof {
                assert(row@ == row_of(
                    *expression,
                    str_views(header@),
                    hide_intermediate,
                    atoms,
                    i as int,
                ));
            }
            let keep: bool = match hide {
                Hide::Off => true,
                Hide::True => row.len() > 0 && !row[row.len() - 1],
                Hide::False => row.len() > 0 && row[row.len() - 1],
            };
            proof {
                assert(keep == keep_row(row@, hide));
            }
            if keep {
                out.push(row);
            }
            proof {
                lemma_rows_range_snoc(
                    *expression,
                    str_views(header@),
                    hide,
                    hide_intermediate,
                    atoms,
                    0,
                    i as int,
                );
                assert(bool_rows(out@) =~= rows_range(
                    *expression,
                    str_views(header@),
                    hide,
                    hide_intermediate,
                    atoms,
                    0,
                    i + 1,
                ));
            }
            i = i + 1;
        }
        proof {
            assert(bool_rows(out@) =~= matrix_spec(
                *expression,
                str_views(header@),
                hide,
                hide_intermediate,
            ));
        }
        out
    }
}


/// Whether a row is non-empty and ends in `b`.
pub open spec fn last_is(row: Seq<bool>, b: bool) -> bool {
    row.len() > 0 && row.last() == b
}

/// The rows whose final value is `b`, in order.
pub open spec fn rows_with_last(s: Seq<Seq<bool>>, b: bool) -> Seq<Seq<bool>>
    decreases s.len(),
{
    if s.len() == 0 {
        Seq::empty()
    } else {
        rows_with_last(s.drop_last(), b) + (if last_is(s.last(), b) {
            seq![s.last()]
        } else {
            Seq::<Seq<bool>>::empty()
        })
    }
}

/// The empty rows, in order.
pub open spec fn rows_empty(s: Seq<Seq<bool>>) -> Seq<Seq<bool>>
    decreases s.len(),
{
    if s.len() == 0 {
        Seq::empty()
    } else {
        rows_empty(s.drop_last()) + (if s.last().len() == 0 {
            seq![s.last()]
        } else {
            Seq::<Seq<bool>>::empty()
        })
    }
}

/// The matrix after the `sort` option: a stable reordering by the final
/// column's value, true rows first or false rows first; rows without a final
/// value sink to the end either way.
pub open spec fn sorted_rows(s: Seq<Seq<bool>>, sort: Sort) -> Seq<Seq<bool>> {
    match sort {
        Sort::Unsorted => s,
        Sort::TrueFirst => rows_with_last(s, true) + rows_with_last(s, false) + rows_empty(s),
        Sort::FalseFirst => rows_with_last(s, false) + rows_with_last(s, true) + rows_empty(s),
    }
}

/// Every row is in exactly one class, so the reordering keeps the length.
pub proof fn lemma_sorted_rows_len(s: Seq<Seq<bool>>, sort: Sort)
    ensures
        sorted_rows(s, sort).len() == s.len(),
    decreases s.len(),
{
    if s.len() > 0 {
        lemma_sorted_rows_len(s.drop_last(), sort);
    }
}

/// Copies a row of booleans.
fn copy_row(row: &Vec<bool>) -> (r: Vec<bool>)
    ensures
        r@ == row@,
{
    let mut out: Vec<bool> = Vec::new();
    let mut i: usize = 0;
    while i < row.len()
        invariant
            0 <= i <= row@.len(),
            out@ == row@.subrange(0, i as int),
        decreases row@.len() - i,
    {
        out.push(row[i]);
        proof {
            assert(out@ =~= row@.subrange(0, i + 1));
        }
        i = i + 1;
    }
    proof {
        assert(out@ =~= row@);
    }
    out
}

impl TruthTable {
    /// Stably reorders the rows by the value of their final column,
    /// according to the `sort` option; the enumeration order is kept inside
    /// each class.
    pub fn sort_matrix(truth_matrix: &mut Vec<Vec<bool>>, sort: Sort)
        ensures
            bool_rows(final(truth_matrix)@) == sorted_rows(bool_rows(old(truth_matrix)@), sort),
    {
        if matches!(sort, Sort::Unsorted) {
            return ;
        }
        let ghost rows0 = bool_rows(truth_matrix@);
        let mut trues: Vec<Vec<bool>> = Vec::new();
        let mut falses: Vec<Vec<bool>> = Vec::new();
        let mut empties: Vec<Vec<bool>> = Vec::new();
        let n = truth_matrix.len();
        let mut i: usize = 0;
        while i < n
            invariant
                n == truth_matrix@.len(),
                rows0 == bool_rows(truth_matrix@),
                0 <= i <= n,
                bool_rows(trues@) == rows_with_last(rows0.subrange(0, i as int), true),
                bool_rows(falses@) == rows_with_last(rows0.subrange(0, i as int), false),
                bool_rows(empties@) == rows_empty(rows0.subrange(0, i as int)),
            decreases n - i,
        {
            let row = copy_row(&truth_matrix[i]);
            if row.len() == 0 {
                empties.push(row);
            } else if row[row.len() - 1] {
                trues.push(row);
            } else {
                falses.push(row);
            }
            proof {
                assert(rows0.subrange(0, i + 1).drop_last() =~= rows0.subrange(0, i as int));
                assert(rows0.subrange(0, i + 1).last() == truth_matrix@[i as int]@);
                assert(bool_rows(trues@) =~= rows_with_last(rows0.subrange(0, i + 1), true));
                assert(bool_rows(falses@) =~= rows_with_last(rows0.subrange(0, i + 1), false));
                assert(bool_rows(empties@) =~= rows_empty(rows0.subrange(0, i + 1)));
            }
            i = i + 1;
        }
        proof {
            assert(rows0.subrange(0, n as int) =~= rows0);
        }
        let mut result: Vec<Vec<bool>>;
        if matches!(sort, Sort::TrueFirst) {
            result = trues;
            result.append(&mut falses);
            result.append(&mut empties);
        } else {
            result = falses;
            result.append(&mut trues);
            result.append(&mut empties);
        }
        proof {
            assert(bool_rows(result@) =~= sorted_rows(rows0, sort));
        }
        *truth_matrix = result;
    }

    /// Builds the full truth table of an expression: extracts the header,
    /// generates the matrix, applies the sorting option, and drops the
    /// intermediate columns when asked to.
    pub fn new(expression: &Expression, options: TruthTableOptions) -> (r: TruthTable)
        requires
            distinct_atom_count(*expression) < 32,
        ensures
            str_views(r.header@) == (if options.hide_intermediate_steps {
                filter_header(headers_of(*expression))
            } else {
                headers_of(*expression)
            }),
            bool_rows(r.truth_matrix@) == sorted_rows(
                matrix_spec(
                    *expression,
                    headers_of(*expression),
                    options.hide,
                    options.hide_intermediate_steps,
                ),
                options.sort,
            ),
            options.hide is Off ==> r.truth_matrix@.len() == pow2(distinct_atom_count(*expression)),
            r.header@.len() >= 1,
            str_views(r.header@).last() == render_of(expression@),
    {
        let mut header = Self::extract_header(expression);
        let mut truth_matrix = Self::generate_truth_matrix(
            expression,
            &header,
            options.hide,
            options.hide_intermediate_steps,
        );
        if !matches!(options.sort, Sort::Unsorted) {
            Self::sort_matrix(&mut truth_matrix, options.sort);
        }
        if options.hide_intermediate_steps {
            header = Self::remove_non_atomic_from_header(&header);
            proof {
                lemma_header_ends_with_root(*expression);
                assert(str_views(header@).last() == headers_of(*expression).last());
            }
        }
        proof {
            lemma_sorted_rows_len(
                matrix_spec(
                    *expression,
                    headers_of(*expression),
                    options.hide,
                    options.hide_intermediate_steps,
                ),
                options.sort,
            );
            assert(bool_rows(truth_matrix@).len() == truth_matrix@.len());
        }
        TruthTable { header, truth_matrix }
    }
}

} // verus!
