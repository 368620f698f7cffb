//! Reading an einsum equation such as `"ij,jk->ik"`: its input terms, its
//! output term, and the role of each index.
use crate::basicblock::shape::{lemma_num_vars_monotone, num_vars_of};
use crate::crypto::sumcheck::zk_linear_prover::{ceil_log2, lemma_ceil_log2_unique};
use vstd::prelude::*;
use vstd::string::StrSliceExecFns;

verus! {

/// The characters with the Unicode `White_Space` property, the ones
/// `char::is_whitespace` accepts and `str::trim` removes.
pub open spec fn is_white_space(c: char) -> bool {
    let u = c as u32;
    ||| 0x9 <= u <= 0xD
    ||| u == 0x20
    ||| u == 0x85
    ||| u == 0xA0
    ||| u == 0x1680
    ||| 0x2000 <= u <= 0x200A
    ||| u == 0x2028
    ||| u == 0x2029
    ||| u == 0x202F
    ||| u == 0x205F
    ||| u == 0x3000
}

/// `s` without its leading white space.
pub open spec fn trim_start(s: Seq<char>) -> Seq<char>
    decreases s.len(),
{
    if s.len() > 0 && is_white_space(s[0]) {
        trim_start(s.drop_first())
    } else {
        s
    }
}

/// `s` without its trailing white space.
pub open spec fn trim_end(s: Seq<char>) -> Seq<char>
    decreases s.len(),
{
    if s.len() > 0 && is_white_space(s.last()) {
        trim_end(s.drop_last())
    } else {
        s
    }
}

/// `s` without leading and trailing white space.
pub open spec fn trim(s: Seq<char>) -> Seq<char> {
    trim_end(trim_start(s))
}

/// The pieces of `s` between the occurrences of `sep` (one more piece than
/// there are separators; pieces may be empty).
pub open spec fn split_on(s: Seq<char>, sep: char) -> Seq<Seq<char>>
    decreases s.len(),
{
    if s.len() == 0 {
        seq![Seq::empty()]
    } else {
        let prev = split_on(s.drop_last(), sep);
        if s.last() == sep {
            prev.push(Seq::empty())
        } else {
            prev.update(prev.len() - 1, prev.last().push(s.last()))
        }
    }
}

/// Position of the first `"->"` in `s` at or after `k`, or `-1`.
pub open spec fn find_arrow(s: Seq<char>, k: nat) -> int
    decreases s.len() - k,
{
    if k + 1 >= s.len() {
        -1
    } else if s[k as int] == '-' && s[k + 1 as int] == '>' {
        k as int
    } else {
        find_arrow(s, k + 1)
    }
}

/// The text before the first `"->"`.
pub open spec fn lhs_of(s: Seq<char>) -> Seq<char> {
    s.subrange(0, find_arrow(s, 0))
}

/// The text after the first `"->"`.
pub open spec fn rhs_of(s: Seq<char>) -> Seq<char> {
    s.subrange(find_arrow(s, 0) + 2, s.len() as int)
}

/// The input terms of an equation with an arrow: the comma-separated
/// pieces before it, each trimmed.
pub open spec fn input_specs_of(s: Seq<char>) -> Seq<Seq<char>> {
    split_on(lhs_of(s), ',').map_values(|t: Seq<char>| trim(t))
}

/// The output term of an equation with an arrow: the text after it, trimmed.
pub open spec fn output_of(s: Seq<char>) -> Seq<char> {
    trim(rhs_of(s))
}

/// The terms one after another.
pub open spec fn concat_all(terms: Seq<Seq<char>>) -> Seq<char>
    decreases terms.len(),
{
    if terms.len() == 0 {
        Seq::empty()
    } else {
        concat_all(terms.drop_last()) + terms.last()
    }
}

/// Number of occurrences of `c` in `s`.
pub open spec fn count_in(s: Seq<char>, c: char) -> nat
    decreases s.len(),
{
    if s.len() == 0 {
        0
    } else {
        count_in(s.drop_last(), c) + if s.last() == c {
            1nat
        } else {
            0nat
        }
    }
}

/// The labels of `out`, in order, that occur exactly once (`once`) or more
/// than once (`!once`) in `flat`.
pub open spec fn free_labels(out: Seq<char>, flat: Seq<char>, once: bool) -> Seq<char>
    decreases out.len(),
{
    if out.len() == 0 {
        Seq::empty()
    } else {
        let prev = free_labels(out.drop_last(), flat, once);
        if (count_in(flat, out.last()) == 1) == once {
            prev.push(out.last())
        } else {
            prev
        }
    }
}

/// The labels of `flat` that are not in `out`, each once, in order of
/// first occurrence.
pub open spec fn summation_of(flat: Seq<char>, out: Seq<char>) -> Seq<char>
    decreases flat.len(),
{
    if flat.len() == 0 {
        Seq::empty()
    } else {
        let prev = summation_of(flat.drop_last(), out);
        let c = flat.last();
        if !out.contains(c) && !prev.contains(c) {
            prev.push(c)
        } else {
            prev
        }
    }
}

/// The views of a list of character vectors.
pub open spec fn views(v: Seq<Vec<char>>) -> Seq<Seq<char>> {
    v.map_values(|x: Vec<char>| x@)
}

/// The characters of a string.
pub fn chars_of(s: &str) -> (r: Vec<char>)
    ensures
        r@ == s@,
{
    let n = s.unicode_len();
    let mut r: Vec<char> = Vec::new();
    let mut i: usize = 0;
    while i < n
        invariant
            i <= n,
            n == s@.len(),
            r@ == s@.take(i as int),
        decreases n - i,
    {
        let c = s.get_char(i);
        r.push(c);
        proof {
            assert(s@.take(i as int + 1) =~= s@.take(i as int).push(c));
        }
        i = i + 1;
    }
    proof {
        assert(s@.take(n as int) =~= s@);
    }
    r
}

/// Whether `c` has the Unicode `White_Space` property.
pub fn white_space(c: char) -> (r: bool)
    ensures
        r == is_white_space(c),
{
    let u = c as u32;
    (0x9 <= u && u <= 0xD) || u == 0x20 || u == 0x85 || u == 0xA0 || u == 0x1680 || (0x2000 <= u
        && u <= 0x200A) || u == 0x2028 || u == 0x2029 || u == 0x202F || u == 0x205F || u == 0x3000
}

proof fn lemma_trim_start_skip(s: Seq<char>, a: int)
    requires
        0 <= a < s.len(),
        is_white_space(s[a]),
    ensures
        trim_start(s.subrange(a, s.len() as int)) == trim_start(s.subrange(a + 1, s.len() as int)),
{
    assert(s.subrange(a, s.len() as int).drop_first() =~= s.subrange(a + 1, s.len() as int));
}

proof fn lemma_trim_end_skip(s: Seq<char>, b: int)
    requires
        0 < b <= s.len(),
        is_white_space(s[b - 1]),
    ensures
        trim_end(s.subrange(0, b)) == trim_end(s.subrange(0, b - 1)),
{
    assert(s.subrange(0, b).drop_last() =~= s.subrange(0, b - 1));
}

/// Copy of `s[lo..hi]`.
fn copy_range(s: &Vec<char>, lo: usize, hi: usize) -> (r: Vec<char>)
    requires
        lo <= hi <= s.len(),
    ensures
        r@ == s@.subrange(lo as int, hi as int),
{
    let mut r: Vec<char> = Vec::new();
    let mut i: usize = lo;
    while i < hi
        invariant
            lo <= i <= hi,
            hi <= s.len(),
            r@ == s@.subrange(lo as int, i as int),
        decreases hi - i,
    {
        r.push(s[i]);
        proof {
            assert(s@.subrange(lo as int, i as int + 1) =~= s@.subrange(lo as int, i as int).push(
                s@[i as int],
            ));
        }
        i = i + 1;
    }
    r
}

/// `s` without leading and trailing white space.
pub fn trim_chars(s: &Vec<char>) -> (r: Vec<char>)
    ensures
        r@ == trim(s@),
{
    let n = s.len();
    let mut a: usize = 0;
    proof {
        assert(s@.subrange(0, n as int) =~= s@);
    }
    while a < n && white_space(s[a])
        invariant
            a <= n,
            n == s.len(),
            trim_start(s@) == trim_start(s@.subrange(a as int, n as int)),
        decreases n - a,
    {
        proof {
            lemma_trim_start_skip(s@, a as int);
        }
        a = a + 1;
    }
    let ghost t = s@.subrange(a as int, n as int);
    assert(trim_start(s@) == t) by {
        if a < n {
            assert(t[0] == s@[a as int]);
        }
    }
    let mut b: usize = n;
    proof {
        assert(t.subrange(0, (n - a) as int) =~= t);
    }
    while b > a && white_space(s[b - 1])
        invariant
            a <= b <= n,
            n == s.len(),
            t == s@.subrange(a as int, n as int),
            trim_end(t) == trim_end(t.subrange(0, (b - a) as int)),
        decreases b - a,
    {
        proof {
            lemma_trim_end_skip(t, (b - a) as int);
        }
        b = b - 1;
    }
    let r = copy_range(s, a, b);
    proof {
        let u = t.subrange(0, (b - a) as int);
        assert(u =~= s@.subrange(a as int, b as int));
        if b > a {
            assert(u.last() == s@[b - 1]);
        }
    }
    r
}

/// The pieces of `s[lo..hi]` between occurrences of `sep`.
pub fn split_chars(s: &Vec<char>, lo: usize, hi: usize, sep: char) -> (r: Vec<Vec<char>>)
    requires
        lo <= hi <= s.len(),
    ensures
        views(r@) == split_on(s@.subrange(lo as int, hi as int), sep),
{
    let mut pieces: Vec<Vec<char>> = Vec::new();
    let mut cur: Vec<char> = Vec::new();
    let mut i: usize = lo;
    proof {
        assert(s@.subrange(lo as int, lo as int) =~= Seq::<char>::empty());
        assert(views(pieces@).push(cur@) =~= seq![Seq::<char>::empty()]);
    }
    while i < hi
        invariant
            lo <= i <= hi,
            hi <= s.len(),
            views(pieces@).push(cur@) == split_on(s@.subrange(lo as int, i as int), sep),
        decreases hi - i,
    {
        let c = s[i];
        let ghost before = views(pieces@).push(cur@);
        let ghost pre = s@.subrange(lo as int, i as int);
        proof {
            let nxt = s@.subrange(lo as int, i as int + 1);
            assert(nxt.drop_last() =~= pre);
            assert(nxt.last() == c);
        }
        if c == sep {
            let done = cur;
            pieces.push(done);
            cur = Vec::new();
            proof {
                assert(views(pieces@).push(cur@) =~= before.push(Seq::<char>::empty()));
            }
        } else {
            cur.push(c);
            proof {
                assert(views(pieces@).push(cur@) =~= before.update(
                    before.len() - 1,
                    before.last().push(c),
                ));
            }
        }
        i = i + 1;
    }
    pieces.push(cur);
    proof {
        assert(views(pieces@) =~= views(pieces@.drop_last()).push(pieces@.last()@));
    }
    pieces
}

/// Position of the first `"->"` in `s`, if any.
pub fn arrow_position(s: &Vec<char>) -> (r: Option<usize>)
    ensures
        match r {
            Some(k) => k as int == find_arrow(s@, 0) && k + 2 <= s.len(),
            None => find_arrow(s@, 0) == -1,
        },
{
    let mut k: usize = 0;
    while s.len() >= 2 && k < s.len() - 1
        invariant
            k <= s.len(),
            find_arrow(s@, 0) == find_arrow(s@, k as nat),
        decreases s.len() - k,
    {
        if s[k] == '-' && s[k + 1] == '>' {
            return Some(k);
        }
        k = k + 1;
    }
    None
}

/// The terms one after another.
pub fn concat_terms(terms: &Vec<Vec<char>>) -> (r: Vec<char>)
    ensures
        r@ == concat_all(views(terms@)),
{
    let mut r: Vec<char> = Vec::new();
    let mut t: usize = 0;
    while t < terms.len()
        invariant
            t <= terms.len(),
            r@ == concat_all(views(terms@).take(t as int)),
        decreases terms.len() - t,
    {
        let ghost before = r@;
        let mut i: usize = 0;
        while i < terms[t].len()
            invariant
                t < terms.len(),
                i <= terms[t as int].len(),
                r@ == before + terms[t as int]@.take(i as int),
            decreases terms[t as int].len() - i,
        {
            r.push(terms[t][i]);
            proof {
                assert(terms[t as int]@.take(i as int + 1) =~= terms[t as int]@.take(i as int).push(
                    terms[t as int]@[i as int],
                ));
                assert(before + terms[t as int]@.take(i as int + 1) =~= (before + terms[t as int]@.take(
                    i as int,
                )).push(terms[t as int]@[i as int]));
            }
            i = i + 1;
        }
        proof {
            let v = views(terms@);
            assert(v.take(t as int + 1).drop_last() =~= v.take(t as int));
            assert(v.take(t as int + 1).last() == terms[t as int]@);
            assert(terms[t as int]@.take(i as int) =~= terms[t as int]@);
        }
        t = t + 1;
    }
    proof {
        assert(views(terms@).take(terms.len() as int) =~= views(terms@));
    }
    r
}

/// Number of occurrences of `c` in `s`.
pub fn count_char(s: &Vec<char>, c: char) -> (r: usize)
    ensures
        r == count_in(s@, c),
{
    let mut r: usize = 0;
    let mut i: usize = 0;
    while i < s.len()
        invariant
            i <= s.len(),
            r == count_in(s@.take(i as int), c),
            r <= i,
        decreases s.len() - i,
    {
        proof {
            assert(s@.take(i as int + 1).drop_last() =~= s@.take(i as int));
        }
        if s[i] == c {
            r = r + 1;
        }
        i = i + 1;
    }
    proof {
        assert(s@.take(s.len() as int) =~= s@);
    }
    r
}

/// Whether `c` occurs in `s`.
pub fn contains_char(s: &Vec<char>, c: char) -> (r: bool)
    ensures
        r == s@.contains(c),
{
    let mut i: usize = 0;
    while i < s.len()
        invariant
            i <= s.len(),
            forall|k: int| 0 <= k < i ==> s@[k] != c,
        decreases s.len() - i,
    {
        if s[i] == c {
            return true;
        }
        i = i + 1;
    }
    false
}

/// The roles of the indices of an einsum equation.
#[derive(Debug, Clone)]
pub struct EinsumIndexClassification {
    /// Output indices, in output order, that occur exactly once over all inputs.
    pub free_once: Vec<char>,
    /// Output indices, in output order, that occur more than once over all inputs.
    pub free_multi: Vec<char>,
    /// Indices of the inputs that are not in the output, each once, in
    /// order of first occurrence.
    pub summation: Vec<char>,
}

/// Reads an equation `"<term>,<term>,..-><term>"`: returns the roles of its
/// indices, its input terms (each trimmed) and its output term (trimmed).
/// The equation must contain `"->"`, and every output index must occur in
/// some input.
pub fn classify_einsum_indices_from_shapes(subscripts: &str) -> (r: (
    EinsumIndexClassification,
    Vec<Vec<char>>,
    Vec<char>,
))
    requires
        find_arrow(subscripts@, 0) >= 0,
        forall|k: int|
            0 <= k < output_of(subscripts@).len() ==> count_in(
                concat_all(input_specs_of(subscripts@)),
                #[trigger] output_of(subscripts@)[k],
            ) > 0,
    ensures
        views(r.1@) == input_specs_of(subscripts@),
        r.2@ == output_of(subscripts@),
        r.0.free_once@ == free_labels(
            output_of(subscripts@),
            concat_all(input_specs_of(subscripts@)),
            true,
        ),
        r.0.free_multi@ == free_labels(
            output_of(subscripts@),
            concat_all(input_specs_of(subscripts@)),
            false,
        ),
        r.0.summation@ == summation_of(
            concat_all(input_specs_of(subscripts@)),
            output_of(subscripts@),
        ),
        forall|c: char|
            #[trigger] r.0.free_once@.contains(c) <==> (output_of(subscripts@).contains(c) && count_in(
                concat_all(input_specs_of(subscripts@)),
                c,
            ) == 1),
        forall|c: char|
            #[trigger] r.0.free_multi@.contains(c) <==> (output_of(subscripts@).contains(c) && count_in(
                concat_all(input_specs_of(subscripts@)),
                c,
            ) != 1),
        forall|c: char|
            #[trigger] r.0.summation@.contains(c) <==> (concat_all(input_specs_of(subscripts@)).contains(c)
                && !output_of(subscripts@).contains(c)),
        r.0.summation@.no_duplicates(),
{
    proof {
        lemma_label_classification(subscripts@);
    }
    let chars = chars_of(subscripts);
    let k = arrow_position(&chars).unwrap();
    let pieces = split_chars(&chars, 0, k, ',');
    let ghost split = split_on(chars@.subrange(0, k as int), ',');
    let mut specs: Vec<Vec<char>> = Vec::new();
    let mut i: usize = 0;
    while i < pieces.len()
        invariant
            i <= pieces.len(),
            views(pieces@) == split,
            views(specs@) == split.take(i as int).map_values(|t: Seq<char>| trim(t)),
        decreases pieces.len() - i,
    {
        let t = trim_chars(&pieces[i]);
        let ghost old_specs = specs@;
        specs.push(t);
        proof {
            assert(views(pieces@)[i as int] == pieces@[i as int]@);
            assert(split[i as int] == pieces@[i as int]@);
            assert(views(specs@) =~= views(specs@.drop_last()).push(specs@.last()@));
            assert(specs@.drop_last() =~= old_specs);
            assert(views(specs@) =~= split.take(i as int + 1).map_values(|t: Seq<char>| trim(t)));
        }
        i = i + 1;
    }
    proof {
        assert(split.take(pieces.len() as int) =~= split);
    }
    let tail = copy_range(&chars, k + 2, chars.len());
    let out = trim_chars(&tail);
    let flat = concat_terms(&specs);
    let ghost fl = flat@;
    let mut free_once: Vec<char> = Vec::new();
    let mut free_multi: Vec<char> = Vec::new();
    let mut j: usize = 0;
    while j < out.len()
        invariant
            j <= out.len(),
            fl == flat@,
            free_once@ == free_labels(out@.take(j as int), fl, true),
            free_multi@ == free_labels(out@.take(j as int), fl, false),
        decreases out.len() - j,
    {
        let c = out[j];
        let cnt = count_char(&flat, c);
        proof {
            assert(out@.take(j as int + 1).drop_last() =~= out@.take(j as int));
            assert(out@.take(j as int + 1).last() == c);
        }
        if cnt == 1 {
            free_once.push(c);
        } else {
            free_multi.push(c);
        }
        j = j + 1;
    }
    proof {
        assert(out@.take(out.len() as int) =~= out@);
    }
    let mut summation: Vec<char> = Vec::new();
    let mut m: usize = 0;
    while m < flat.len()
        invariant
            m <= flat.len(),
            summation@ == summation_of(flat@.take(m as int), out@),
        decreases flat.len() - m,
    {
        let c = flat[m];
        proof {
            assert(flat@.take(m as int + 1).drop_last() =~= flat@.take(m as int));
            assert(flat@.take(m as int + 1).last() == c);
        }
        if !contains_char(&out, c) && !contains_char(&summation, c) {
            summation.push(c);
        }
        m = m + 1;
    }
    proof {
        assert(flat@.take(flat.len() as int) =~= flat@);
        let eq = subscripts@;
        assert(free_once@ == free_once_of(eq));
        assert(free_multi@ == free_multi_of(eq));
        assert forall|c: char| #[trigger] free_once@.contains(c) <==> (output_of(eq).contains(c) && count_in(
            concat_all(input_specs_of(eq)),
            c,
        ) == 1) by {
            assert(free_once_of(eq).contains(c) == free_once@.contains(c));
        }
        assert forall|c: char| #[trigger] free_multi@.contains(c) <==> (output_of(eq).contains(c) && count_in(
            concat_all(input_specs_of(eq)),
            c,
        ) != 1) by {
            assert(free_multi_of(eq).contains(c) == free_multi@.contains(c));
        }
    }
    (EinsumIndexClassification { free_once, free_multi, summation }, specs, out)
}

/// For each label, the range `[start, end)` of the variables of its
/// dimension. A later entry for a label replaces an earlier one, as an
/// insert into a map does.
#[derive(Debug, Clone)]
pub struct RangeMap {
    pub entries: Vec<(char, (usize, usize))>,
}

/// The range of `c`: that of its last entry, if it has one.
pub open spec fn lookup_range(entries: Seq<(char, (usize, usize))>, c: char) -> Option<
    (usize, usize),
>
    decreases entries.len(),
{
    if entries.len() == 0 {
        None
    } else if entries.last().0 == c {
        Some(entries.last().1)
    } else {
        lookup_range(entries.drop_last(), c)
    }
}

impl RangeMap {
    /// The range of `c`, if `c` has one.
    pub fn get(&self, c: &char) -> (r: Option<(usize, usize)>)
        ensures
            r == lookup_range(self.entries@, *c),
    {
        let mut k: usize = self.entries.len();
        proof {
            assert(self.entries@.take(k as int) =~= self.entries@);
        }
        while k > 0
            invariant
                k <= self.entries.len(),
                lookup_range(self.entries@, *c) == lookup_range(self.entries@.take(k as int), *c),
            decreases k,
        {
            proof {
                let t = self.entries@.take(k as int);
                assert(t.drop_last() =~= self.entries@.take(k as int - 1));
                assert(t.last() == self.entries@[k as int - 1]);
            }
            if self.entries[k - 1].0 == *c {
                return Some(self.entries[k - 1].1);
            }
            k = k - 1;
        }
        None
    }

    /// Whether `c` has a range.
    pub fn contains_key(&self, c: &char) -> (r: bool)
        ensures
            r == lookup_range(self.entries@, *c).is_some(),
    {
        self.get(c).is_some()
    }
}

/// Entry `i` gives label `symbol[i]` the variables of dimension `i` of
/// `shape`, each dimension padded to a power of two:
/// `[Σ_{k<i} ceil_log2(shape[k]), Σ_{k<=i} ceil_log2(shape[k]))`.
pub open spec fn range_entries(symbol: Seq<char>, shape: Seq<usize>) -> Seq<(char, (usize, usize))> {
    Seq::new(
        symbol.len(),
        |i: int|
            (
                symbol[i],
                (num_vars_of(shape, i as nat) as usize, num_vars_of(shape, (i + 1) as nat) as usize),
            ),
    )
}

/// Gives each label of a term the range of variables of its dimension.
pub fn char_to_range(symbol: &[char], shape: &[usize]) -> (r: RangeMap)
    requires
        symbol.len() <= shape.len(),
        forall|i: int| 0 <= i < symbol.len() ==> #[trigger] shape[i] <= usize::MAX / 2,
        num_vars_of(shape@, symbol.len() as nat) <= usize::MAX,
    ensures
        r.entries@ == range_entries(symbol@, shape@),
{
    let mut entries: Vec<(char, (usize, usize))> = Vec::new();
    let mut start: usize = 0;
    let mut i: usize = 0;
    while i < symbol.len()
        invariant
            i <= symbol.len(),
            symbol.len() <= shape.len(),
            forall|k: int| 0 <= k < symbol.len() ==> #[trigger] shape[k] <= usize::MAX / 2,
            num_vars_of(shape@, symbol.len() as nat) <= usize::MAX,
            start == num_vars_of(shape@, i as nat),
            entries@ == range_entries(symbol@.take(i as int), shape@),
        decreases symbol.len() - i,
    {
        let k = ceil_log2(shape[i]);
        proof {
            lemma_ceil_log2_unique(shape@[i as int] as nat, k as nat);
            if k >= 64 {
                vstd::arithmetic::power2::lemma2_to64_rest();
                if k > 64 {
                    vstd::arithmetic::power2::lemma_pow2_strictly_increases(64, k as nat);
                }
            }
            assert(num_vars_of(shape@, (i + 1) as nat) == start + k);
            lemma_num_vars_monotone(shape@, (i + 1) as nat, symbol.len() as nat);
        }
        entries.push((symbol[i], (start, start + k)));
        proof {
            assert(entries@ =~= range_entries(symbol@.take(i as int + 1), shape@));
        }
        start = start + k;
        i = i + 1;
    }
    proof {
        assert(symbol@.take(symbol.len() as int) =~= symbol@);
    }
    RangeMap { entries }
}

/// Why an einsum equation does not fit the shapes of its inputs.
#[derive(Debug, Clone, Copy, PartialEq, Eq, Structural)]
pub enum EinsumShapeError {
    /// The equation has a different number of input terms than shapes are given.
    InputCountMismatch,
    /// Input term `term` has a different number of indices than its shape has dimensions.
    RankMismatch { term: usize },
    /// Index `index` is given dimension `dim` after dimension `previous`.
    DimensionConflict { index: char, previous: usize, dim: usize },
    /// Output index `index` occurs in no input term.
    UnknownOutputIndex { index: char },
}

/// The dimension recorded first for `c`, if any.
pub open spec fn first_dim(assoc: Seq<(char, usize)>, c: char) -> Option<usize>
    decreases assoc.len(),
{
    if assoc.len() == 0 {
        None
    } else {
        let prev = first_dim(assoc.drop_last(), c);
        if prev is Some {
            prev
        } else if assoc.last().0 == c {
            Some(assoc.last().1)
        } else {
            None
        }
    }
}

/// Records the dimensions of the first `k` indices of one term: a new index
/// is added, a known one must have the dimension recorded for it.
pub open spec fn record_dims(
    assoc: Seq<(char, usize)>,
    idx: Seq<char>,
    dims: Seq<usize>,
    k: nat,
) -> Result<Seq<(char, usize)>, EinsumShapeError>
    decreases k,
{
    if k == 0 {
        Ok(assoc)
    } else {
        match record_dims(assoc, idx, dims, (k - 1) as nat) {
            Err(e) => Err(e),
            Ok(m) => {
                let c = idx[k - 1];
                let d = dims[k - 1];
                match first_dim(m, c) {
                    Some(prev) => if prev != d {
                        Err(EinsumShapeError::DimensionConflict { index: c, previous: prev, dim: d })
                    } else {
                        Ok(m)
                    },
                    None => Ok(m.push((c, d))),
                }
            },
        }
    }
}

/// Records the dimensions of the first `t` terms, checking the rank of each
/// term before its indices.
pub open spec fn record_terms(terms: Seq<Seq<char>>, shapes: Seq<Seq<usize>>, t: nat) -> Result<
    Seq<(char, usize)>,
    EinsumShapeError,
>
    decreases t,
{
    if t == 0 {
        Ok(Seq::empty())
    } else {
        match record_terms(terms, shapes, (t - 1) as nat) {
            Err(e) => Err(e),
            Ok(m) => if terms[t - 1].len() != shapes[t - 1].len() {
                Err(EinsumShapeError::RankMismatch { term: (t - 1) as usize })
            } else {
                record_dims(m, terms[t - 1], shapes[t - 1], terms[t - 1].len())
            },
        }
    }
}

/// The labels of `prefix`, in order, that occur exactly once in `flat`.
pub open spec fn once_labels(prefix: Seq<char>, flat: Seq<char>) -> Seq<char>
    decreases prefix.len(),
{
    if prefix.len() == 0 {
        Seq::empty()
    } else {
        let prev = once_labels(prefix.drop_last(), flat);
        if count_in(flat, prefix.last()) == 1 {
            prev.push(prefix.last())
        } else {
            prev
        }
    }
}

/// The input terms: the comma-separated pieces before the first `"->"`,
/// or of the whole equation if it has none.
pub open spec fn lhs_terms(eq: Seq<char>) -> Seq<Seq<char>> {
    if find_arrow(eq, 0) >= 0 {
        split_on(lhs_of(eq), ',')
    } else {
        split_on(eq, ',')
    }
}

/// The output labels: the text after the first `"->"`, or, without an
/// arrow, the labels that occur exactly once over the inputs, in order.
pub open spec fn output_labels(eq: Seq<char>) -> Seq<char> {
    if find_arrow(eq, 0) >= 0 {
        rhs_of(eq)
    } else {
        once_labels(concat_all(lhs_terms(eq)), concat_all(lhs_terms(eq)))
    }
}

/// The dimensions of the labels of `out`, or the first unknown label.
pub open spec fn dims_of_labels(assoc: Seq<(char, usize)>, out: Seq<char>) -> Result<
    Seq<usize>,
    EinsumShapeError,
>
    decreases out.len(),
{
    if out.len() == 0 {
        Ok(Seq::empty())
    } else {
        match dims_of_labels(assoc, out.drop_last()) {
            Err(e) => Err(e),
            Ok(v) => match first_dim(assoc, out.last()) {
                Some(d) => Ok(v.push(d)),
                None => Err(EinsumShapeError::UnknownOutputIndex { index: out.last() }),
            },
        }
    }
}

/// The output shape of an einsum equation over inputs of the given shapes,
/// or the first inconsistency found.
pub open spec fn einsum_shape_spec(eq: Seq<char>, shapes: Seq<Seq<usize>>) -> Result<
    Seq<usize>,
    EinsumShapeError,
> {
    let terms = lhs_terms(eq);
    if terms.len() != shapes.len() {
        Err(EinsumShapeError::InputCountMismatch)
    } else {
        match record_terms(terms, shapes, terms.len()) {
            Err(e) => Err(e),
            Ok(m) => dims_of_labels(m, output_labels(eq)),
        }
    }
}

/// Recording the first `k` terms succeeds only where each of them has as
/// many indices as its shape has dimensions.
proof fn lemma_recorded_terms_match_ranks(terms: Seq<Seq<char>>, shapes: Seq<Seq<usize>>, k: nat)
    requires
        record_terms(terms, shapes, k) is Ok,
    ensures
        forall|t: int| 0 <= t < k ==> (#[trigger] terms[t]).len() == shapes[t].len(),
    decreases k,
{
    if k > 0 {
        lemma_recorded_terms_match_ranks(terms, shapes, (k - 1) as nat);
    }
}

/// An inferred output shape implies the shapes fit the equation's terms:
/// one shape per input term, and every term has as many indices as its
/// shape has dimensions.  Where a term's rank differs from its shape's
/// (the terms before it being consistent), the result is the rank error
/// naming that term.
pub proof fn lemma_shape_ranks_match(eq: Seq<char>, shapes: Seq<Seq<usize>>)
    ensures
        einsum_shape_spec(eq, shapes) is Ok ==> {
            &&& lhs_terms(eq).len() == shapes.len()
            &&& forall|t: int| 0 <= t < shapes.len() ==> (#[trigger] lhs_terms(eq)[t]).len() == shapes[t].len()
        },
        forall|t: int|
            0 <= t < shapes.len() && lhs_terms(eq).len() == shapes.len() && record_terms(
                lhs_terms(eq),
                shapes,
                t as nat,
            ) is Ok && (#[trigger] lhs_terms(eq)[t]).len() != shapes[t].len() ==> einsum_shape_spec(eq, shapes)
                == Err::<Seq<usize>, EinsumShapeError>(EinsumShapeError::RankMismatch { term: t as usize }),
{
    let terms = lhs_terms(eq);
    if einsum_shape_spec(eq, shapes) is Ok {
        lemma_recorded_terms_match_ranks(terms, shapes, terms.len());
    }
    assert forall|t: int|
        0 <= t < shapes.len() && terms.len() == shapes.len() && record_terms(terms, shapes, t as nat) is Ok
            && (#[trigger] terms[t]).len() != shapes[t].len() implies einsum_shape_spec(eq, shapes) == Err::<
        Seq<usize>,
        EinsumShapeError,
    >(EinsumShapeError::RankMismatch { term: t as usize }) by {
        lemma_record_terms_stops(terms, shapes, (t + 1) as nat, terms.len());
    }
}

/// Once recording stops on an error, recording more terms keeps that
/// error.
proof fn lemma_record_terms_stops(terms: Seq<Seq<char>>, shapes: Seq<Seq<usize>>, j: nat, k: nat)
    requires
        j <= k,
        record_terms(terms, shapes, j) is Err,
    ensures
        record_terms(terms, shapes, k) == record_terms(terms, shapes, j),
    decreases k - j,
{
    if j < k {
        lemma_record_terms_stops(terms, shapes, j, (k - 1) as nat);
    }
}

/// Recording the first `k` indices of a term keeps the dimensions already
/// recorded, gives each of those indices its dimension, and records no
/// other label.
proof fn lemma_record_dims_facts(assoc: Seq<(char, usize)>, idx: Seq<char>, dims: Seq<usize>, k: nat)
    requires
        k <= idx.len(),
        k <= dims.len(),
        record_dims(assoc, idx, dims, k) is Ok,
    ensures
        ({
            let m = record_dims(assoc, idx, dims, k)->Ok_0;
            &&& forall|c: char| (#[trigger] first_dim(assoc, c)) is Some ==> first_dim(m, c) == first_dim(assoc, c)
            &&& forall|i: int| 0 <= i < k ==> first_dim(m, #[trigger] idx[i]) == Some(dims[i])
            &&& forall|c: char|
                (#[trigger] first_dim(m, c)) is Some ==> first_dim(assoc, c) is Some || exists|i: int|
                    0 <= i < k && #[trigger] idx[i] == c
        }),
    decreases k,
{
    if k > 0 {
        lemma_record_dims_facts(assoc, idx, dims, (k - 1) as nat);
        let m0 = record_dims(assoc, idx, dims, (k - 1) as nat)->Ok_0;
        let m = record_dims(assoc, idx, dims, k)->Ok_0;
        let c = idx[k - 1];
        let d = dims[k - 1];
        if first_dim(m0, c) is None {
            assert(m == m0.push((c, d)));
            assert(m.drop_last() =~= m0);
            assert forall|x: char| (#[trigger] first_dim(m, x)) is Some implies first_dim(assoc, x) is Some || exists|
                i: int,
            | 0 <= i < k && #[trigger] idx[i] == x by {
                if first_dim(m0, x) is None {
                    assert(x == c);
                    assert(idx[k - 1] == x);
                }
            }
        } else {
            assert(m == m0);
        }
    }
}

/// Recording the first `t` terms gives every index of them the dimension
/// its shape has there, and records no label outside them.
proof fn lemma_record_terms_facts(terms: Seq<Seq<char>>, shapes: Seq<Seq<usize>>, t: nat)
    requires
        t <= terms.len(),
        t <= shapes.len(),
        record_terms(terms, shapes, t) is Ok,
    ensures
        ({
            let m = record_terms(terms, shapes, t)->Ok_0;
            &&& forall|a: int, i: int|
                0 <= a < t && 0 <= i < terms[a].len() ==> first_dim(m, #[trigger] terms[a][i]) == Some(shapes[a][i])
            &&& forall|c: char|
                (#[trigger] first_dim(m, c)) is Some ==> exists|a: int, i: int|
                    0 <= a < t && 0 <= i < terms[a].len() && #[trigger] terms[a][i] == c
        }),
    decreases t,
{
    if t > 0 {
        lemma_record_terms_facts(terms, shapes, (t - 1) as nat);
        let m0 = record_terms(terms, shapes, (t - 1) as nat)->Ok_0;
        let m = record_terms(terms, shapes, t)->Ok_0;
        let a0 = t - 1;
        assert(terms[a0].len() == shapes[a0].len());
        lemma_record_dims_facts(m0, terms[a0], shapes[a0], terms[a0].len());
        assert forall|a: int, i: int|
            0 <= a < t && 0 <= i < terms[a].len() implies first_dim(m, #[trigger] terms[a][i]) == Some(shapes[a][i]) by {
            if a < a0 {
                assert(first_dim(m0, terms[a][i]) is Some);
            } else {
                assert(first_dim(m, terms[a0][i]) == Some(shapes[a0][i]));
            }
        }
        assert forall|c: char| (#[trigger] first_dim(m, c)) is Some implies exists|a: int, i: int|
            0 <= a < t && 0 <= i < terms[a].len() && #[trigger] terms[a][i] == c by {
            if first_dim(m0, c) is Some {
                let (a, i) = choose|a: int, i: int|
                    0 <= a < t - 1 && 0 <= i < terms[a].len() && #[trigger] terms[a][i] == c;
                assert(terms[a][i] == c);
            } else {
                let i = choose|i: int| 0 <= i < terms[a0].len() && #[trigger] terms[a0][i] == c;
                assert(terms[a0][i] == c);
            }
        }
    }
}

/// The labels' dimensions are those recorded for them.
proof fn lemma_dims_of_labels_facts(assoc: Seq<(char, usize)>, out: Seq<char>)
    requires
        dims_of_labels(assoc, out) is Ok,
    ensures
        dims_of_labels(assoc, out)->Ok_0.len() == out.len(),
        forall|k: int|
            0 <= k < out.len() ==> first_dim(assoc, #[trigger] out[k]) == Some(
                dims_of_labels(assoc, out)->Ok_0[k],
            ),
    decreases out.len(),
{
    if out.len() > 0 {
        lemma_dims_of_labels_facts(assoc, out.drop_last());
        let v0 = dims_of_labels(assoc, out.drop_last())->Ok_0;
        let v = dims_of_labels(assoc, out)->Ok_0;
        assert forall|k: int| 0 <= k < out.len() implies first_dim(assoc, #[trigger] out[k]) == Some(v[k]) by {
            if k < out.len() - 1 {
                assert(out.drop_last()[k] == out[k]);
                assert(v[k] == v0[k]);
            }
        }
    }
}

/// An inferred output shape is consistent with the inputs: an index has
/// the same dimension wherever it occurs in the input terms, the output
/// has one dimension per output label, and each is the dimension that the
/// label has in every input term where it occurs (and it occurs in one).
pub proof fn lemma_output_shape_from_inputs(eq: Seq<char>, shapes: Seq<Seq<usize>>)
    requires
        einsum_shape_spec(eq, shapes) is Ok,
    ensures
        ({
            let terms = lhs_terms(eq);
            let out = output_labels(eq);
            let v = einsum_shape_spec(eq, shapes)->Ok_0;
            &&& forall|a: int, i: int, b: int, j: int|
                0 <= a < terms.len() && 0 <= i < terms[a].len() && 0 <= b < terms.len() && 0 <= j < terms[b].len()
                    && #[trigger] terms[a][i] == #[trigger] terms[b][j] ==> shapes[a][i] == shapes[b][j]
            &&& v.len() == out.len()
            &&& forall|k: int|
                #![trigger out[k]]
                0 <= k < out.len() ==> exists|a: int, i: int|
                    0 <= a < terms.len() && 0 <= i < terms[a].len() && #[trigger] terms[a][i] == out[k]
            &&& forall|k: int, a: int, i: int|
                0 <= k < out.len() && 0 <= a < terms.len() && 0 <= i < terms[a].len() && #[trigger] terms[a][i]
                    == #[trigger] out[k] ==> v[k] == shapes[a][i]
        }),
{
    let terms = lhs_terms(eq);
    let out = output_labels(eq);
    lemma_recorded_terms_match_ranks(terms, shapes, terms.len());
    lemma_record_terms_facts(terms, shapes, terms.len());
    let m = record_terms(terms, shapes, terms.len())->Ok_0;
    lemma_dims_of_labels_facts(m, out);
    let v = einsum_shape_spec(eq, shapes)->Ok_0;
    assert(v == dims_of_labels(m, out)->Ok_0);
    assert forall|k: int| #![trigger out[k]] 0 <= k < out.len() implies exists|a: int, i: int|
        0 <= a < terms.len() && 0 <= i < terms[a].len() && #[trigger] terms[a][i] == out[k] by {
        assert(first_dim(m, out[k]) is Some);
    }
}

/// The views of a list of shapes.
pub open spec fn shape_views(v: Seq<Vec<usize>>) -> Seq<Seq<usize>> {
    v.map_values(|x: Vec<usize>| x@)
}

proof fn lemma_first_dim_prefix(assoc: Seq<(char, usize)>, c: char, j: int)
    requires
        0 <= j <= assoc.len(),
        first_dim(assoc.take(j), c) is Some,
    ensures
        first_dim(assoc, c) == first_dim(assoc.take(j), c),
    decreases assoc.len() - j,
{
    if j < assoc.len() {
        let t = assoc.take(j + 1);
        assert(t.drop_last() =~= assoc.take(j));
        lemma_first_dim_prefix(assoc, c, j + 1);
    } else {
        assert(assoc.take(j) =~= assoc);
    }
}

proof fn lemma_record_dims_err(
    assoc: Seq<(char, usize)>,
    idx: Seq<char>,
    dims: Seq<usize>,
    k: nat,
    j: nat,
)
    requires
        k <= j,
        record_dims(assoc, idx, dims, k) is Err,
    ensures
        record_dims(assoc, idx, dims, j) == record_dims(assoc, idx, dims, k),
    decreases j - k,
{
    if k < j {
        lemma_record_dims_err(assoc, idx, dims, k, (j - 1) as nat);
    }
}

proof fn lemma_record_terms_err(terms: Seq<Seq<char>>, shapes: Seq<Seq<usize>>, k: nat, j: nat)
    requires
        k <= j,
        record_terms(terms, shapes, k) is Err,
    ensures
        record_terms(terms, shapes, j) == record_terms(terms, shapes, k),
    decreases j - k,
{
    if k < j {
        lemma_record_terms_err(terms, shapes, k, (j - 1) as nat);
    }
}

proof fn lemma_dims_of_labels_err(assoc: Seq<(char, usize)>, out: Seq<char>, k: int)
    requires
        0 <= k <= out.len(),
        dims_of_labels(assoc, out.take(k)) is Err,
    ensures
        dims_of_labels(assoc, out) == dims_of_labels(assoc, out.take(k)),
    decreases out.len() - k,
{
    if k < out.len() {
        assert(out.take(k + 1).drop_last() =~= out.take(k));
        lemma_dims_of_labels_err(assoc, out, k + 1);
    } else {
        assert(out.take(k) =~= out);
    }
}

/// The dimension recorded first for `c`, if any.
fn find_dim(assoc: &Vec<(char, usize)>, c: char) -> (r: Option<usize>)
    ensures
        r == first_dim(assoc@, c),
{
    let mut k: usize = 0;
    proof {
        assert(assoc@.take(0) =~= Seq::<(char, usize)>::empty());
    }
    while k < assoc.len()
        invariant
            k <= assoc.len(),
            first_dim(assoc@.take(k as int), c) is None,
        decreases assoc.len() - k,
    {
        proof {
            assert(assoc@.take(k as int + 1).drop_last() =~= assoc@.take(k as int));
        }
        if assoc[k].0 == c {
            proof {
                lemma_first_dim_prefix(assoc@, c, k as int + 1);
            }
            return Some(assoc[k].1);
        }
        k = k + 1;
    }
    proof {
        assert(assoc@.take(k as int) =~= assoc@);
    }
    None
}

/// The labels of `flat`, in order, that occur in it exactly once.
fn labels_once(flat: &Vec<char>) -> (r: Vec<char>)
    ensures
        r@ == once_labels(flat@, flat@),
{
    let mut r: Vec<char> = Vec::new();
    let mut i: usize = 0;
    while i < flat.len()
        invariant
            i <= flat.len(),
            r@ == once_labels(flat@.take(i as int), flat@),
        decreases flat.len() - i,
    {
        let c = flat[i];
        proof {
            assert(flat@.take(i as int + 1).drop_last() =~= flat@.take(i as int));
            assert(flat@.take(i as int + 1).last() == c);
        }
        if count_char(flat, c) == 1 {
            r.push(c);
        }
        i = i + 1;
    }
    proof {
        assert(flat@.take(flat.len() as int) =~= flat@);
    }
    r
}

/// The output shape of an einsum equation over inputs of the given shapes:
/// each output index takes the dimension it has in the inputs. Fails on
/// the first inconsistency: a wrong number of shapes, a term whose rank is
/// not its shape's, an index given two dimensions, or an output index in
/// no input. Without `"->"` the output is the indices that occur exactly
/// once, in order of occurrence.
pub fn einsum_output_shape(equation: &str, input_shapes: &[Vec<usize>]) -> (r: Result<
    Vec<usize>,
    EinsumShapeError,
>)
    ensures
        match r {
            Ok(v) => einsum_shape_spec(equation@, shape_views(input_shapes@)) == Ok::<
                Seq<usize>,
                EinsumShapeError,
            >(v@),
            Err(e) => einsum_shape_spec(equation@, shape_views(input_shapes@)) == Err::<
                Seq<usize>,
                EinsumShapeError,
            >(e),
        },
        r is Ok ==> {
            &&& lhs_terms(equation@).len() == input_shapes.len()
            &&& forall|t: int|
                0 <= t < input_shapes.len() ==> (#[trigger] lhs_terms(equation@)[t]).len() == input_shapes@[t].len()
            &&& r->Ok_0.len() == output_labels(equation@).len()
            &&& forall|k: int, a: int, i: int|
                0 <= k < output_labels(equation@).len() && 0 <= a < lhs_terms(equation@).len() && 0 <= i
                    < lhs_terms(equation@)[a].len() && #[trigger] lhs_terms(equation@)[a][i]
                    == #[trigger] output_labels(equation@)[k] ==> r->Ok_0@[k] == input_shapes@[a]@[i]
        },
{
    let ghost eq = equation@;
    let ghost shapes = shape_views(input_shapes@);
    proof {
        lemma_shape_ranks_match(eq, shapes);
        if einsum_shape_spec(eq, shapes) is Ok {
            lemma_output_shape_from_inputs(eq, shapes);
        }
    }
    let chars = chars_of(equation);
    let arrow = arrow_position(&chars);
    let terms = match arrow {
        Some(k) => split_chars(&chars, 0, k, ','),
        None => split_chars(&chars, 0, chars.len(), ','),
    };
    proof {
        if arrow is None {
            assert(chars@.subrange(0, chars.len() as int) =~= chars@);
        }
    }
    let ghost tv = views(terms@);
    assert(tv == lhs_terms(eq));
    if terms.len() != input_shapes.len() {
        return Err(EinsumShapeError::InputCountMismatch);
    }
    let mut dim_map: Vec<(char, usize)> = Vec::new();
    let mut t: usize = 0;
    while t < terms.len()
        invariant
            t <= terms.len(),
            terms.len() == input_shapes.len(),
            tv == views(terms@),
            tv == lhs_terms(eq),
            eq == equation@,
            shapes == shape_views(input_shapes@),
            record_terms(tv, shapes, t as nat) == Ok::<Seq<(char, usize)>, EinsumShapeError>(
                dim_map@,
            ),
        decreases terms.len() - t,
    {
        assert(tv[t as int] == terms[t as int]@);
        assert(shapes[t as int] == input_shapes[t as int]@);
        if terms[t].len() != input_shapes[t].len() {
            proof {
                assert(tv[t as int].len() != shapes[t as int].len());
                assert(record_terms(tv, shapes, t as nat + 1) == Err::<
                    Seq<(char, usize)>,
                    EinsumShapeError,
                >(EinsumShapeError::RankMismatch { term: t }));
                lemma_record_terms_err(tv, shapes, t as nat + 1, tv.len());
                assert(einsum_shape_spec(eq, shapes) == Err::<Seq<usize>, EinsumShapeError>(
                    EinsumShapeError::RankMismatch { term: t },
                ));
            }
            return Err(EinsumShapeError::RankMismatch { term: t });
        }
        let ghost m0 = dim_map@;
        let mut k: usize = 0;
        while k < terms[t].len()
            invariant
                t < terms.len(),
                terms.len() == input_shapes.len(),
                terms[t as int].len() == input_shapes[t as int].len(),
                tv == views(terms@),
                tv == lhs_terms(eq),
            eq == equation@,
                shapes == shape_views(input_shapes@),
                tv[t as int] == terms[t as int]@,
                shapes[t as int] == input_shapes[t as int]@,
                record_terms(tv, shapes, t as nat) == Ok::<Seq<(char, usize)>, EinsumShapeError>(
                    m0,
                ),
                k <= terms[t as int].len(),
                record_dims(m0, tv[t as int], shapes[t as int], k as nat) == Ok::<
                    Seq<(char, usize)>,
                    EinsumShapeError,
                >(dim_map@),
            decreases terms[t as int].len() - k,
        {
            let c = terms[t][k];
            let d = input_shapes[t][k];
            match find_dim(&dim_map, c) {
                Some(prev) => {
                    if prev != d {
                        proof {
                            let len = tv[t as int].len();
                            lemma_record_dims_err(
                                m0,
                                tv[t as int],
                                shapes[t as int],
                                k as nat + 1,
                                len,
                            );
                            lemma_record_terms_err(tv, shapes, t as nat + 1, tv.len());
                        }
                        return Err(
                            EinsumShapeError::DimensionConflict { index: c, previous: prev, dim: d },
                        );
                    }
                },
                None => {
                    dim_map.push((c, d));
                },
            }
            k = k + 1;
        }
        t = t + 1;
    }
    let out: Vec<char> = match arrow {
        Some(k) => copy_range(&chars, k + 2, chars.len()),
        None => {
            let flat = concat_terms(&terms);
            labels_once(&flat)
        },
    };
    assert(out@ == output_labels(eq));
    let mut shape: Vec<usize> = Vec::new();
    let mut i: usize = 0;
    while i < out.len()
        invariant
            i <= out.len(),
            tv == lhs_terms(eq),
            eq == equation@,
            tv.len() == shapes.len(),
            shapes == shape_views(input_shapes@),
            out@ == output_labels(eq),
            record_terms(tv, shapes, tv.len()) == Ok::<Seq<(char, usize)>, EinsumShapeError>(
                dim_map@,
            ),
            dims_of_labels(dim_map@, out@.take(i as int)) == Ok::<Seq<usize>, EinsumShapeError>(
                shape@,
            ),
        decreases out.len() - i,
    {
        let c = out[i];
        proof {
            assert(out@.take(i as int + 1).drop_last() =~= out@.take(i as int));
            assert(out@.take(i as int + 1).last() == c);
        }
        match find_dim(&dim_map, c) {
            Some(d) => {
                shape.push(d);
            },
            None => {
                proof {
                    lemma_dims_of_labels_err(dim_map@, out@, i as int + 1);
                }
                return Err(EinsumShapeError::UnknownOutputIndex { index: c });
            },
        }
        i = i + 1;
    }
    proof {
        assert(out@.take(out.len() as int) =~= out@);
    }
    Ok(shape)
}

/// The ranges that `entries` gives the labels of `labels`, in order, for
/// the labels it has.
pub open spec fn select_ranges(labels: Seq<char>, entries: Seq<(char, (usize, usize))>) -> Seq<
    (usize, usize),
>
    decreases labels.len(),
{
    if labels.len() == 0 {
        Seq::empty()
    } else {
        let prev = select_ranges(labels.drop_last(), entries);
        match lookup_range(entries, labels.last()) {
            Some(r) => prev.push(r),
            None => prev,
        }
    }
}

/// The coordinates of `point` in the output range of each label of
/// `labels`, one label after another.
pub open spec fn point_of_labels<T>(
    labels: Seq<char>,
    out_entries: Seq<(char, (usize, usize))>,
    point: Seq<T>,
) -> Seq<T>
    decreases labels.len(),
{
    if labels.len() == 0 {
        Seq::empty()
    } else {
        let r = lookup_range(out_entries, labels.last()).unwrap();
        point_of_labels(labels.drop_last(), out_entries, point) + point.subrange(
            r.0 as int,
            r.1 as int,
        )
    }
}

/// As `point_of_labels`, for the labels that `present` has.
pub open spec fn point_of_present<T>(
    labels: Seq<char>,
    present: Seq<(char, (usize, usize))>,
    out_entries: Seq<(char, (usize, usize))>,
    point: Seq<T>,
) -> Seq<T>
    decreases labels.len(),
{
    if labels.len() == 0 {
        Seq::empty()
    } else {
        let prev = point_of_present(labels.drop_last(), present, out_entries, point);
        if lookup_range(present, labels.last()) is Some {
            let r = lookup_range(out_entries, labels.last()).unwrap();
            prev + point.subrange(r.0 as int, r.1 as int)
        } else {
            prev
        }
    }
}

/// One input's share of the summation rounds: each label of `summ` that the
/// input has and that no earlier input had (`seen`) adds the length of its
/// range. Gives the rounds added and the labels seen afterwards.
pub open spec fn summation_step(
    summ: Seq<char>,
    entries: Seq<(char, (usize, usize))>,
    seen: Seq<char>,
) -> (int, Seq<char>)
    decreases summ.len(),
{
    if summ.len() == 0 {
        (0, seen)
    } else {
        let prev = summation_step(summ.drop_last(), entries, seen);
        let c = summ.last();
        match lookup_range(entries, c) {
            Some(r) => if !prev.1.contains(c) {
                (prev.0 + (r.1 - r.0), prev.1.push(c))
            } else {
                prev
            },
            None => prev,
        }
    }
}

/// The summation rounds of the first `k` inputs, and the summation labels
/// they have.
pub open spec fn summation_rounds(
    summ: Seq<char>,
    specs: Seq<Seq<char>>,
    shapes: Seq<Seq<usize>>,
    k: nat,
) -> (int, Seq<char>)
    decreases k,
{
    if k == 0 {
        (0, Seq::empty())
    } else {
        let prev = summation_rounds(summ, specs, shapes, (k - 1) as nat);
        let st = summation_step(summ, range_entries(specs[k - 1], shapes[k - 1]), prev.1);
        (prev.0 + st.0, st.1)
    }
}

/// Every range of `entries` is `[start, end)` with `start <= end`.
pub open spec fn ordered_ranges(entries: Seq<(char, (usize, usize))>) -> bool {
    forall|k: int| 0 <= k < entries.len() ==> (#[trigger] entries[k]).1.0 <= entries[k].1.1
}

/// The ranges of a term lie in order within its variables.
pub proof fn lemma_range_entries_ordered(symbol: Seq<char>, shape: Seq<usize>)
    requires
        num_vars_of(shape, symbol.len() as nat) <= usize::MAX,
    ensures
        ordered_ranges(range_entries(symbol, shape)),
        forall|k: int|
            0 <= k < symbol.len() ==> (#[trigger] range_entries(symbol, shape)[k]).1.1
                <= num_vars_of(shape, symbol.len() as nat),
{
    assert forall|k: int| 0 <= k < symbol.len() implies {
        let e = #[trigger] range_entries(symbol, shape)[k];
        e.1.0 <= e.1.1 <= num_vars_of(shape, symbol.len() as nat)
    } by {
        lemma_num_vars_monotone(shape, 0, k as nat);
        lemma_num_vars_monotone(shape, k as nat, (k + 1) as nat);
        lemma_num_vars_monotone(shape, (k + 1) as nat, symbol.len() as nat);
    }
}

/// `lookup_range` finds a label exactly when an entry has it, and then
/// gives that entry's range.
pub proof fn lemma_lookup_range(entries: Seq<(char, (usize, usize))>, c: char)
    ensures
        (lookup_range(entries, c) is Some) == (exists|k: int|
            0 <= k < entries.len() && (#[trigger] entries[k]).0 == c),
        lookup_range(entries, c) is Some ==> exists|k: int|
            0 <= k < entries.len() && (#[trigger] entries[k]) == (c, lookup_range(entries, c).unwrap()),
    decreases entries.len(),
{
    if entries.len() > 0 {
        let d = entries.drop_last();
        lemma_lookup_range(d, c);
        if entries.last().0 != c {
            if exists|k: int| 0 <= k < entries.len() && (#[trigger] entries[k]).0 == c {
                let k = choose|k: int| 0 <= k < entries.len() && (#[trigger] entries[k]).0 == c;
                assert(d[k] == entries[k]);
            }
            if lookup_range(d, c) is Some {
                let k = choose|k: int|
                    0 <= k < d.len() && (#[trigger] d[k]) == (c, lookup_range(d, c).unwrap());
                assert(entries[k] == d[k]);
            }
        } else {
            assert(entries[entries.len() - 1] == entries.last());
        }
    }
}

/// The labels `free_labels` keeps are labels of `out`.
pub proof fn lemma_free_labels_in_out(out: Seq<char>, flat: Seq<char>, once: bool)
    ensures
        forall|k: int|
            0 <= k < free_labels(out, flat, once).len() ==> out.contains(
                #[trigger] free_labels(out, flat, once)[k],
            ),
    decreases out.len(),
{
    if out.len() > 0 {
        let d = out.drop_last();
        lemma_free_labels_in_out(d, flat, once);
        assert forall|k: int| 0 <= k < free_labels(out, flat, once).len() implies out.contains(
            #[trigger] free_labels(out, flat, once)[k],
        ) by {
            let f = free_labels(out, flat, once);
            let fd = free_labels(d, flat, once);
            if k < fd.len() {
                assert(f[k] == fd[k]);
                let m = choose|m: int| 0 <= m < d.len() && d[m] == fd[k];
                assert(out[m] == d[m]);
            } else {
                assert(f[k] == out.last());
                assert(out[out.len() - 1] == out.last());
            }
        }
    }
}

/// The free labels kept with `once` are exactly the output labels whose
/// number of occurrences over the inputs is one (`once`) or not one.
proof fn lemma_free_labels_members(out: Seq<char>, flat: Seq<char>, once: bool)
    ensures
        forall|c: char|
            #[trigger] free_labels(out, flat, once).contains(c) <==> (out.contains(c) && (count_in(flat, c) == 1)
                == once),
    decreases out.len(),
{
    if out.len() > 0 {
        let d = out.drop_last();
        lemma_free_labels_members(d, flat, once);
        let f = free_labels(out, flat, once);
        let fd = free_labels(d, flat, once);
        assert forall|c: char| #[trigger] f.contains(c) <==> (out.contains(c) && (count_in(flat, c) == 1) == once) by {
            if f.contains(c) {
                let k = choose|k: int| 0 <= k < f.len() && f[k] == c;
                if k < fd.len() {
                    assert(fd[k] == c);
                    assert(fd.contains(c));
                    let m = choose|m: int| 0 <= m < d.len() && d[m] == c;
                    assert(out[m] == c);
                } else {
                    assert(out[out.len() - 1] == c);
                }
            }
            if out.contains(c) && (count_in(flat, c) == 1) == once {
                let m = choose|m: int| 0 <= m < out.len() && out[m] == c;
                if m < d.len() {
                    assert(d[m] == c);
                    assert(fd.contains(c));
                    let k = choose|k: int| 0 <= k < fd.len() && fd[k] == c;
                    assert(f[k] == c);
                } else {
                    assert(f.last() == c);
                    assert(f[f.len() - 1] == c);
                }
            }
        }
    }
}

/// The summation labels are exactly the input labels not in the output,
/// each once.
proof fn lemma_summation_members(flat: Seq<char>, out: Seq<char>)
    ensures
        forall|c: char| #[trigger] summation_of(flat, out).contains(c) <==> (flat.contains(c) && !out.contains(c)),
        summation_of(flat, out).no_duplicates(),
    decreases flat.len(),
{
    if flat.len() > 0 {
        let d = flat.drop_last();
        lemma_summation_members(d, out);
        let sm = summation_of(flat, out);
        let sd = summation_of(d, out);
        let x = flat.last();
        assert forall|c: char| #[trigger] sm.contains(c) <==> (flat.contains(c) && !out.contains(c)) by {
            if sm.contains(c) {
                let k = choose|k: int| 0 <= k < sm.len() && sm[k] == c;
                if k < sd.len() {
                    assert(sd[k] == c);
                    assert(sd.contains(c));
                    let m = choose|m: int| 0 <= m < d.len() && d[m] == c;
                    assert(flat[m] == c);
                } else {
                    assert(flat[flat.len() - 1] == c);
                }
            }
            if flat.contains(c) && !out.contains(c) {
                let m = choose|m: int| 0 <= m < flat.len() && flat[m] == c;
                if m < d.len() {
                    assert(d[m] == c);
                    assert(sd.contains(c));
                    let k = choose|k: int| 0 <= k < sd.len() && sd[k] == c;
                    assert(sm[k] == c);
                } else if sd.contains(c) {
                    let k = choose|k: int| 0 <= k < sd.len() && sd[k] == c;
                    assert(sm[k] == c);
                } else {
                    assert(sm[sm.len() - 1] == c);
                }
            }
        }
        assert(sm.no_duplicates()) by {
            if !out.contains(x) && !sd.contains(x) {
                assert forall|a: int, b: int| 0 <= a < b < sm.len() implies sm[a] != sm[b] by {
                    if b == sm.len() - 1 {
                        assert(sm[a] == sd[a]);
                        if sd[a] == x {
                            assert(sd.contains(x));
                        }
                    } else {
                        assert(sm[a] == sd[a] && sm[b] == sd[b]);
                    }
                }
            }
        }
    }
}

/// The classification of an einsum's labels: a label is free-once exactly
/// when it is in the output and occurs once over the inputs, free-multi
/// exactly when it is in the output and does not occur once there, and a
/// summation label exactly when it occurs in the inputs but not in the
/// output; the summation labels are listed once each.
pub proof fn lemma_label_classification(eq: Seq<char>)
    ensures
        forall|c: char|
            #[trigger] free_once_of(eq).contains(c) <==> (output_of(eq).contains(c) && count_in(
                concat_all(input_specs_of(eq)),
                c,
            ) == 1),
        forall|c: char|
            #[trigger] free_multi_of(eq).contains(c) <==> (output_of(eq).contains(c) && count_in(
                concat_all(input_specs_of(eq)),
                c,
            ) != 1),
        forall|c: char|
            #[trigger] summation_labels_of(eq).contains(c) <==> (concat_all(input_specs_of(eq)).contains(c)
                && !output_of(eq).contains(c)),
        summation_labels_of(eq).no_duplicates(),
{
    let flat = concat_all(input_specs_of(eq));
    let out = output_of(eq);
    lemma_free_labels_members(out, flat, true);
    lemma_free_labels_members(out, flat, false);
    lemma_summation_members(flat, out);
}

/// An output label has a range in the output's entries, within the
/// output's variables.
proof fn lemma_out_range(out: Seq<char>, shape: Seq<usize>, c: char)
    requires
        out.contains(c),
        num_vars_of(shape, out.len() as nat) <= usize::MAX,
    ensures
        lookup_range(range_entries(out, shape), c) is Some,
        lookup_range(range_entries(out, shape), c).unwrap().0 <= lookup_range(
            range_entries(out, shape),
            c,
        ).unwrap().1 <= num_vars_of(shape, out.len() as nat),
{
    let e = range_entries(out, shape);
    lemma_range_entries_ordered(out, shape);
    lemma_lookup_range(e, c);
    let m = choose|m: int| 0 <= m < out.len() && out[m] == c;
    assert(e[m].0 == c);
    let k = choose|k: int| 0 <= k < e.len() && (#[trigger] e[k]) == (c, lookup_range(e, c).unwrap());
    assert(e[k].1.0 <= e[k].1.1);
}

/// Adding a label to the step never lowers the rounds.
proof fn lemma_step_monotone(
    summ: Seq<char>,
    entries: Seq<(char, (usize, usize))>,
    seen: Seq<char>,
    j: int,
)
    requires
        0 <= j <= summ.len(),
        ordered_ranges(entries),
    ensures
        0 <= summation_step(summ.take(j), entries, seen).0 <= summation_step(summ, entries, seen).0,
    decreases summ.len(),
{
    lemma_step_nonneg(summ.take(j), entries, seen);
    if j < summ.len() {
        let d = summ.drop_last();
        assert(d.take(j) =~= summ.take(j));
        lemma_step_monotone(d, entries, seen, j);
        lemma_step_nonneg(d, entries, seen);
        lemma_lookup_range(entries, summ.last());
        if lookup_range(entries, summ.last()) is Some {
            let k = choose|k: int|
                0 <= k < entries.len() && (#[trigger] entries[k]) == (
                    summ.last(),
                    lookup_range(entries, summ.last()).unwrap(),
                );
            assert(entries[k].1.0 <= entries[k].1.1);
        }
    } else {
        assert(summ.take(j) =~= summ);
    }
}

proof fn lemma_step_nonneg(summ: Seq<char>, entries: Seq<(char, (usize, usize))>, seen: Seq<char>)
    requires
        ordered_ranges(entries),
    ensures
        0 <= summation_step(summ, entries, seen).0,
    decreases summ.len(),
{
    if summ.len() > 0 {
        lemma_step_nonneg(summ.drop_last(), entries, seen);
        lemma_lookup_range(entries, summ.last());
        if lookup_range(entries, summ.last()) is Some {
            let k = choose|k: int|
                0 <= k < entries.len() && (#[trigger] entries[k]) == (
                    summ.last(),
                    lookup_range(entries, summ.last()).unwrap(),
                );
            assert(entries[k].1.0 <= entries[k].1.1);
        }
    }
}

/// The rounds of more inputs are no fewer.
proof fn lemma_rounds_monotone(
    summ: Seq<char>,
    specs: Seq<Seq<char>>,
    shapes: Seq<Seq<usize>>,
    k: nat,
    j: nat,
)
    requires
        k <= j <= specs.len(),
        specs.len() <= shapes.len(),
        forall|i: int|
            0 <= i < specs.len() ==> num_vars_of(#[trigger] shapes[i], specs[i].len() as nat)
                <= usize::MAX,
    ensures
        summation_rounds(summ, specs, shapes, k).0 <= summation_rounds(summ, specs, shapes, j).0,
    decreases j - k,
{
    if k < j {
        lemma_rounds_monotone(summ, specs, shapes, k, (j - 1) as nat);
        let i = j - 1;
        lemma_range_entries_ordered(specs[i], shapes[i]);
        lemma_step_nonneg(
            summ,
            range_entries(specs[i], shapes[i]),
            summation_rounds(summ, specs, shapes, (j - 1) as nat).1,
        );
    }
}

/// Each label of `labels` has a range in `out_entries` within `0..len`.
pub open spec fn ranges_fit(labels: Seq<char>, out_entries: Seq<(char, (usize, usize))>, len: nat) -> bool {
    forall|k: int|
        0 <= k < labels.len() ==> {
            let r = lookup_range(out_entries, #[trigger] labels[k]);
            &&& r is Some
            &&& r.unwrap().0 <= r.unwrap().1 <= len
        }
}

/// Appends `src` to `dst`.
fn append_chars(dst: &mut Vec<char>, src: &Vec<char>)
    ensures
        final(dst)@ == old(dst)@ + src@,
{
    let ghost start = dst@;
    let mut k: usize = 0;
    while k < src.len()
        invariant
            k <= src.len(),
            dst@ == start + src@.take(k as int),
        decreases src.len() - k,
    {
        dst.push(src[k]);
        proof {
            assert(start + src@.take(k as int + 1) =~= (start + src@.take(k as int)).push(
                src@[k as int],
            ));
        }
        k = k + 1;
    }
    proof {
        assert(src@.take(src.len() as int) =~= src@);
    }
}

/// Appends `point[a..b]` to `dst`.
fn append_slice<T: Copy>(dst: &mut Vec<T>, point: &[T], a: usize, b: usize)
    requires
        a <= b <= point.len(),
    ensures
        final(dst)@ == old(dst)@ + point@.subrange(a as int, b as int),
{
    let ghost start = dst@;
    let mut k: usize = a;
    while k < b
        invariant
            a <= k <= b,
            b <= point.len(),
            dst@ == start + point@.subrange(a as int, k as int),
        decreases b - k,
    {
        dst.push(point[k]);
        proof {
            assert(start + point@.subrange(a as int, k as int + 1) =~= (start + point@.subrange(
                a as int,
                k as int,
            )).push(point@[k as int]));
        }
        k = k + 1;
    }
}

/// The ranges of the labels that `m` has, in the order of `labels`.
fn ranges_of_labels(labels: &Vec<char>, m: &RangeMap) -> (r: Vec<(usize, usize)>)
    ensures
        r@ == select_ranges(labels@, m.entries@),
{
    let mut r: Vec<(usize, usize)> = Vec::new();
    let mut k: usize = 0;
    while k < labels.len()
        invariant
            k <= labels.len(),
            r@ == select_ranges(labels@.take(k as int), m.entries@),
        decreases labels.len() - k,
    {
        proof {
            assert(labels@.take(k as int + 1).drop_last() =~= labels@.take(k as int));
            assert(labels@.take(k as int + 1).last() == labels@[k as int]);
        }
        match m.get(&labels[k]) {
            Some(range) => {
                r.push(range);
            },
            None => {},
        }
        k = k + 1;
    }
    proof {
        assert(labels@.take(labels.len() as int) =~= labels@);
    }
    r
}

/// The coordinates of `point` in the output range of each label.
fn point_at_labels<T: Copy>(labels: &Vec<char>, out_map: &RangeMap, point: &[T]) -> (r: Vec<T>)
    requires
        ranges_fit(labels@, out_map.entries@, point.len() as nat),
    ensures
        r@ == point_of_labels(labels@, out_map.entries@, point@),
{
    let mut r: Vec<T> = Vec::new();
    let mut k: usize = 0;
    while k < labels.len()
        invariant
            k <= labels.len(),
            ranges_fit(labels@, out_map.entries@, point.len() as nat),
            r@ == point_of_labels(labels@.take(k as int), out_map.entries@, point@),
        decreases labels.len() - k,
    {
        proof {
            assert(labels@.take(k as int + 1).drop_last() =~= labels@.take(k as int));
            assert(labels@.take(k as int + 1).last() == labels@[k as int]);
        }
        let range = out_map.get(&labels[k]).unwrap();
        append_slice(&mut r, point, range.0, range.1);
        k = k + 1;
    }
    proof {
        assert(labels@.take(labels.len() as int) =~= labels@);
    }
    r
}

/// The coordinates of `point` in the output range of each label that
/// `present` has.
fn point_at_present<T: Copy>(
    labels: &Vec<char>,
    present: &RangeMap,
    out_map: &RangeMap,
    point: &[T],
) -> (r: Vec<T>)
    requires
        ranges_fit(labels@, out_map.entries@, point.len() as nat),
    ensures
        r@ == point_of_present(labels@, present.entries@, out_map.entries@, point@),
{
    let mut r: Vec<T> = Vec::new();
    let mut k: usize = 0;
    while k < labels.len()
        invariant
            k <= labels.len(),
            ranges_fit(labels@, out_map.entries@, point.len() as nat),
            r@ == point_of_present(
                labels@.take(k as int),
                present.entries@,
                out_map.entries@,
                point@,
            ),
        decreases labels.len() - k,
    {
        proof {
            assert(labels@.take(k as int + 1).drop_last() =~= labels@.take(k as int));
            assert(labels@.take(k as int + 1).last() == labels@[k as int]);
        }
        if present.contains_key(&labels[k]) {
            let range = out_map.get(&labels[k]).unwrap();
            append_slice(&mut r, point, range.0, range.1);
        }
        k = k + 1;
    }
    proof {
        assert(labels@.take(labels.len() as int) =~= labels@);
    }
    r
}

/// The input terms, then the output term, fit their shapes: no more
/// indices than dimensions, dimensions whose padding to a power of two
/// fits a word, and variable counts that fit a word.
pub open spec fn terms_fit(specs: Seq<Seq<char>>, out: Seq<char>, shapes: Seq<Seq<usize>>) -> bool {
    &&& shapes.len() == specs.len() + 1
    &&& forall|i: int|
        0 <= i < specs.len() ==> {
            &&& (#[trigger] specs[i]).len() <= shapes[i].len()
            &&& forall|d: int| 0 <= d < specs[i].len() ==> #[trigger] shapes[i][d] <= usize::MAX / 2
            &&& num_vars_of(shapes[i], specs[i].len() as nat) <= usize::MAX
        }
    &&& out.len() <= shapes.last().len()
    &&& forall|d: int| 0 <= d < out.len() ==> #[trigger] shapes.last()[d] <= usize::MAX / 2
    &&& num_vars_of(shapes.last(), out.len() as nat) <= usize::MAX
}

/// The free labels that occur once over the inputs.
pub open spec fn free_once_of(eq: Seq<char>) -> Seq<char> {
    free_labels(output_of(eq), concat_all(input_specs_of(eq)), true)
}

/// The free labels that occur more than once over the inputs.
pub open spec fn free_multi_of(eq: Seq<char>) -> Seq<char> {
    free_labels(output_of(eq), concat_all(input_specs_of(eq)), false)
}

/// The summation labels.
pub open spec fn summation_labels_of(eq: Seq<char>) -> Seq<char> {
    summation_of(concat_all(input_specs_of(eq)), output_of(eq))
}

/// All labels: free-once, then free-multi, then summation.
pub open spec fn all_labels_of(eq: Seq<char>) -> Seq<char> {
    free_once_of(eq) + free_multi_of(eq) + summation_labels_of(eq)
}

/// The index bookkeeping of an einsum sumcheck. `shapes` holds the shapes
/// of the inputs and then that of the output; `challenge_point` is a point
/// of the output's variables. For each input term: the ranges of its
/// variables in the order free-once, free-multi, summation label (for the
/// labels it has), and the coordinates of `challenge_point` at its
/// free-once labels. Then the coordinates of `challenge_point` at the
/// free-multi labels, and the number of summation variables (each
/// summation label counted once, with its range in the first input that
/// has it).
pub fn einsum_helper<T: Copy>(equation: &str, shapes: &[Vec<usize>], challenge_point: &[T]) -> (r: (
    Vec<Vec<(usize, usize)>>,
    Vec<Vec<T>>,
    Vec<T>,
    usize,
))
    requires
        find_arrow(equation@, 0) >= 0,
        forall|k: int|
            0 <= k < output_of(equation@).len() ==> count_in(
                concat_all(input_specs_of(equation@)),
                #[trigger] output_of(equation@)[k],
            ) > 0,
        terms_fit(input_specs_of(equation@), output_of(equation@), shape_views(shapes@)),
        num_vars_of(shape_views(shapes@).last(), output_of(equation@).len() as nat)
            <= challenge_point.len(),
        summation_rounds(
            summation_labels_of(equation@),
            input_specs_of(equation@),
            shape_views(shapes@),
            input_specs_of(equation@).len(),
        ).0 <= usize::MAX,
    ensures
        r.0.len() == input_specs_of(equation@).len(),
        r.1.len() == input_specs_of(equation@).len(),
        forall|i: int|
            0 <= i < r.0.len() ==> (#[trigger] r.0@[i])@ == select_ranges(
                all_labels_of(equation@),
                range_entries(input_specs_of(equation@)[i], shape_views(shapes@)[i]),
            ),
        forall|i: int|
            0 <= i < r.1.len() ==> (#[trigger] r.1@[i])@ == point_of_present(
                free_once_of(equation@),
                range_entries(input_specs_of(equation@)[i], shape_views(shapes@)[i]),
                range_entries(output_of(equation@), shape_views(shapes@).last()),
                challenge_point@,
            ),
        r.2@ == point_of_labels(
            free_multi_of(equation@),
            range_entries(output_of(equation@), shape_views(shapes@).last()),
            challenge_point@,
        ),
        r.3 == summation_rounds(
            summation_labels_of(equation@),
            input_specs_of(equation@),
            shape_views(shapes@),
            input_specs_of(equation@).len(),
        ).0,
{
    let ghost eq = equation@;
    let ghost sh = shape_views(shapes@);
    let (cls, specs, out) = classify_einsum_indices_from_shapes(equation);
    let ghost sp = views(specs@);
    let mut all: Vec<char> = Vec::new();
    append_chars(&mut all, &cls.free_once);
    append_chars(&mut all, &cls.free_multi);
    append_chars(&mut all, &cls.summation);
    let input_num = shapes.len() - 1;
    assert(sh[input_num as int] == shapes[input_num as int]@);
    assert(sh.last() == sh[input_num as int]);
    let out_map = char_to_range(out.as_slice(), shapes[input_num].as_slice());
    let ghost oe = out_map.entries@;
    proof {
        let nv = num_vars_of(sh.last(), out@.len() as nat);
        lemma_free_labels_in_out(out@, concat_all(sp), true);
        lemma_free_labels_in_out(out@, concat_all(sp), false);
        assert forall|k: int| 0 <= k < cls.free_once@.len() implies {
            let r = lookup_range(oe, #[trigger] cls.free_once@[k]);
            &&& r is Some
            &&& r.unwrap().0 <= r.unwrap().1 <= challenge_point.len()
        } by {
            lemma_out_range(out@, sh.last(), cls.free_once@[k]);
        }
        assert forall|k: int| 0 <= k < cls.free_multi@.len() implies {
            let r = lookup_range(oe, #[trigger] cls.free_multi@[k]);
            &&& r is Some
            &&& r.unwrap().0 <= r.unwrap().1 <= challenge_point.len()
        } by {
            lemma_out_range(out@, sh.last(), cls.free_multi@[k]);
        }
    }
    let ghost summ = cls.summation@;
    let ghost total = summation_rounds(summ, sp, sh, sp.len()).0;
    let mut permute_vecs: Vec<Vec<(usize, usize)>> = Vec::new();
    let mut degree_one: Vec<Vec<T>> = Vec::new();
    let mut seen: Vec<char> = Vec::new();
    let mut rounds: usize = 0;
    let mut i: usize = 0;
    while i < input_num
        invariant
            i <= input_num,
            input_num == specs.len(),
            sp == views(specs@),
            sh == shape_views(shapes@),
            sp == input_specs_of(eq),
            terms_fit(sp, out@, sh),
            summ == cls.summation@,
            all@ == cls.free_once@ + cls.free_multi@ + summ,
            oe == out_map.entries@,
            ranges_fit(cls.free_once@, oe, challenge_point.len() as nat),
            total == summation_rounds(summ, sp, sh, sp.len()).0,
            total <= usize::MAX,
            permute_vecs.len() == i,
            degree_one.len() == i,
            forall|k: int|
                0 <= k < i ==> (#[trigger] permute_vecs@[k])@ == select_ranges(
                    all@,
                    range_entries(sp[k], sh[k]),
                ),
            forall|k: int|
                0 <= k < i ==> (#[trigger] degree_one@[k])@ == point_of_present(
                    cls.free_once@,
                    range_entries(sp[k], sh[k]),
                    oe,
                    challenge_point@,
                ),
            rounds as int == summation_rounds(summ, sp, sh, i as nat).0,
            seen@ == summation_rounds(summ, sp, sh, i as nat).1,
        decreases input_num - i,
    {
        assert(sp[i as int] == specs[i as int]@);
        assert(sh[i as int] == shapes[i as int]@);
        let c_to_r = char_to_range(specs[i].as_slice(), shapes[i].as_slice());
        let ghost ce = c_to_r.entries@;
        let pv = ranges_of_labels(&all, &c_to_r);
        let pc = point_at_present(&cls.free_once, &c_to_r, &out_map, challenge_point);
        let ghost seen0 = seen@;
        let ghost r0 = rounds as int;
        proof {
            lemma_range_entries_ordered(sp[i as int], sh[i as int]);
            lemma_rounds_monotone(summ, sp, sh, i as nat + 1, sp.len());
        }
        let mut j: usize = 0;
        while j < cls.summation.len()
            invariant
                j <= cls.summation.len(),
                summ == cls.summation@,
                ce == c_to_r.entries@,
                ordered_ranges(ce),
                r0 + summation_step(summ, ce, seen0).0 <= usize::MAX,
                rounds as int == r0 + summation_step(summ.take(j as int), ce, seen0).0,
                seen@ == summation_step(summ.take(j as int), ce, seen0).1,
            decreases cls.summation.len() - j,
        {
            let c = cls.summation[j];
            proof {
                assert(summ.take(j as int + 1).drop_last() =~= summ.take(j as int));
                assert(summ.take(j as int + 1).last() == c);
                lemma_step_monotone(summ, ce, seen0, j as int + 1);
                lemma_lookup_range(ce, c);
            }
            match c_to_r.get(&c) {
                Some(range) => {
                    proof {
                        let k = choose|k: int|
                            0 <= k < ce.len() && (#[trigger] ce[k]) == (c, range);
                        assert(ce[k].1.0 <= ce[k].1.1);
                    }
                    if !contains_char(&seen, c) {
                        seen.push(c);
                        rounds = rounds + (range.1 - range.0);
                    }
                },
                None => {},
            }
            j = j + 1;
        }
        proof {
            assert(summ.take(summ.len() as int) =~= summ);
        }
        permute_vecs.push(pv);
        degree_one.push(pc);
        i = i + 1;
    }
    let high = point_at_labels(&cls.free_multi, &out_map, challenge_point);
    (permute_vecs, degree_one, high, rounds)
}

} // verus!
