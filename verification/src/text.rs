//! Character-level text operations on `Seq<char>`, each stated as the std
//! behaviour it follows (`str::trim`, `split_whitespace`, `split`, ordering of
//! `String`, `Display` of integers and booleans).

use vstd::prelude::*;

verus! {

broadcast use {vstd::string::group_string_axioms, vstd::slice::group_slice_axioms};

/// The texts held by a sequence of character vectors.
pub open spec fn texts_of(v: Seq<Vec<char>>) -> Seq<Seq<char>> {
    Seq::new(v.len(), |i: int| v[i]@)
}

/// Three-way result of comparing two texts or two numbers.
#[derive(PartialEq, Eq, Structural, Clone, Copy, Debug)]
pub enum Order {
    Less,
    Equal,
    Greater,
}

/// The characters of `s`, in order.
pub fn chars_of(s: &str) -> (r: Vec<char>)
    ensures
        r@ == s@,
{
    let mut out: Vec<char> = Vec::new();
    for c in it: s.chars()
        invariant
            out@ == it.seq().take(it.index() as int),
            it.seq() == s@,
    {
        out.push(c);
    }
    assert(out@ =~= s@);
    out
}

/// A `String` holding exactly the characters `cs` (std's `FromIterator<&char>`).
#[verifier::external_body]
pub(crate) fn string_of(cs: &[char]) -> (r: String)
    ensures
        r@ == cs@,
{
    cs.iter().collect()
}

/// What `str::to_lowercase` gives for a text: the full Unicode lowercase
/// mapping, the same in every process.
pub uninterp spec fn lowercase_of(s: Seq<char>) -> Seq<char>;

/// std's `str::to_lowercase`.
#[verifier::external_body]
pub(crate) fn lowercase(s: &str) -> (r: String)
    ensures
        r@ == lowercase_of(s@),
{
    s.to_lowercase()
}

/// `a` followed by `b`.
pub fn concat(a: &str, b: &str) -> (r: String)
    ensures
        r@ == a@ + b@,
{
    let mut cs = chars_of(a);
    let mut bs = chars_of(b);
    cs.append(&mut bs);
    string_of(&cs)
}

/// Equality of two character slices.
pub fn chars_eq(a: &[char], b: &[char]) -> (r: bool)
    ensures
        r == (a@ == b@),
{
    if a.len() != b.len() {
        return false;
    }
    let mut i: usize = 0;
    while i < a.len()
        invariant
            a@.len() == b@.len(),
            i <= a@.len(),
            forall|j: int| 0 <= j < i ==> a@[j] == b@[j],
        decreases a@.len() - i,
    {
        if a[i] != b[i] {
            return false;
        }
        i = i + 1;
    }
    assert(a@ =~= b@);
    true
}

/// Unicode `White_Space`: the characters for which `char::is_whitespace` holds.
pub open spec fn is_white_space(c: char) -> bool {
    let u = c as u32;
    ||| 0x9 <= u <= 0xD
    ||| u == 0x20
    ||| u == 0x85
    ||| u == 0xA0
    ||| u == 0x1680
    ||| 0x2000 <= u <= 0x200A
    ||| u == 0x2028
    ||| u == 0x2029
    ||| u == 0x202F
    ||| u == 0x205F
    ||| u == 0x3000
}

/// `char::is_whitespace`.
pub fn white_space(c: char) -> (r: bool)
    ensures
        r == is_white_space(c),
{
    let u = c as u32;
    (0x9 <= u && u <= 0xD) || u == 0x20 || u == 0x85 || u == 0xA0 || u == 0x1680 || (0x2000 <= u
        && u <= 0x200A) || u == 0x2028 || u == 0x2029 || u == 0x202F || u == 0x205F || u == 0x3000
}

/// The characters that a trim removes: white space, or one given character.
pub open spec fn trimmed_char(white: bool, t: char, c: char) -> bool {
    if white {
        is_white_space(c)
    } else {
        c == t
    }
}

/// Whether a trim removes `c`.
fn trim_test(white: bool, t: char, c: char) -> (r: bool)
    ensures
        r == trimmed_char(white, t, c),
{
    if white {
        white_space(c)
    } else {
        c == t
    }
}

/// `s` without its leading run of trimmed characters.
pub open spec fn strip_start(s: Seq<char>, white: bool, t: char) -> Seq<char>
    decreases s.len(),
{
    if s.len() > 0 && trimmed_char(white, t, s[0]) {
        strip_start(s.drop_first(), white, t)
    } else {
        s
    }
}

/// `s` without its trailing run of trimmed characters.
pub open spec fn strip_end(s: Seq<char>, white: bool, t: char) -> Seq<char>
    decreases s.len(),
{
    if s.len() > 0 && trimmed_char(white, t, s.last()) {
        strip_end(s.drop_last(), white, t)
    } else {
        s
    }
}

/// `str::trim` (`white`) and `str::trim_matches(t)` (not `white`).
pub open spec fn strip(s: Seq<char>, white: bool, t: char) -> Seq<char> {
    strip_end(strip_start(s, white, t), white, t)
}

/// `str::trim`: leading and trailing white space removed.
pub open spec fn trim_white(s: Seq<char>) -> Seq<char> {
    strip(s, true, ' ')
}

proof fn lemma_strip_start_skip(s: Seq<char>, white: bool, t: char, a: int)
    requires
        0 <= a < s.len(),
        trimmed_char(white, t, s[a]),
    ensures
        strip_start(s.skip(a), white, t) == strip_start(s.skip(a + 1), white, t),
{
    assert(s.skip(a).drop_first() =~= s.skip(a + 1));
}

proof fn lemma_strip_end_take(s: Seq<char>, white: bool, t: char, b: int)
    requires
        0 < b <= s.len(),
        trimmed_char(white, t, s[b - 1]),
    ensures
        strip_end(s.take(b), white, t) == strip_end(s.take(b - 1), white, t),
{
    assert(s.take(b).drop_last() =~= s.take(b - 1));
}

/// `str::trim` (`white`) or `str::trim_matches(t)` (not `white`) on characters.
pub fn strip_chars(s: &[char], white: bool, t: char) -> (r: Vec<char>)
    ensures
        r@ == strip(s@, white, t),
{
    let mut a: usize = 0;
    assert(s@.skip(0) =~= s@);
    while a < s.len() && trim_test(white, t, s[a])
        invariant
            a <= s@.len(),
            strip_start(s@, white, t) == strip_start(s@.skip(a as int), white, t),
        decreases s@.len() - a,
    {
        proof {
            lemma_strip_start_skip(s@, white, t, a as int);
        }
        a = a + 1;
    }
    let ghost rest = s@.skip(a as int);
    assert(strip_start(s@, white, t) == rest);
    let mut b: usize = s.len();
    assert(rest.take(b - a) =~= rest);
    while b > a && trim_test(white, t, s[b - 1])
        invariant
            a <= b <= s@.len(),
            rest == s@.skip(a as int),
            strip_end(rest, white, t) == strip_end(rest.take(b - a), white, t),
        decreases b - a,
    {
        proof {
            lemma_strip_end_take(rest, white, t, (b - a) as int);
        }
        b = b - 1;
    }
    let mut out: Vec<char> = Vec::new();
    let mut i: usize = a;
    while i < b
        invariant
            a <= i <= b <= s@.len(),
            out@ == s@.subrange(a as int, i as int),
        decreases b - i,
    {
        out.push(s[i]);
        i = i + 1;
        assert(out@ =~= s@.subrange(a as int, i as int));
    }
    assert(rest.take(b - a) =~= s@.subrange(a as int, b as int));
    assert(rest.take(s@.len() - a) =~= rest);
    out
}

proof fn lemma_strip_start_head(s: Seq<char>, white: bool, t: char)
    ensures
        strip_start(s, white, t).len() > 0 ==> !trimmed_char(white, t, strip_start(s, white, t)[0]),
        strip_start(s, white, t).len() <= s.len(),
        strip_start(s, white, t) == s.skip(s.len() - strip_start(s, white, t).len()),
    decreases s.len(),
{
    if s.len() > 0 && trimmed_char(white, t, s[0]) {
        lemma_strip_start_head(s.drop_first(), white, t);
        let r = strip_start(s.drop_first(), white, t);
        assert(s.drop_first().skip(s.drop_first().len() - r.len()) =~= s.skip(s.len() - r.len()));
    } else {
        assert(s.skip(0) =~= s);
    }
}

proof fn lemma_strip_end_prefix(s: Seq<char>, white: bool, t: char)
    ensures
        strip_end(s, white, t).len() <= s.len(),
        strip_end(s, white, t) == s.take(strip_end(s, white, t).len() as int),
        strip_end(s, white, t).len() > 0 ==> !trimmed_char(white, t, strip_end(s, white, t).last()),
    decreases s.len(),
{
    if s.len() > 0 && trimmed_char(white, t, s.last()) {
        lemma_strip_end_prefix(s.drop_last(), white, t);
        let r = strip_end(s.drop_last(), white, t);
        assert(s.drop_last().take(r.len() as int) =~= s.take(r.len() as int));
    } else {
        assert(s.take(s.len() as int) =~= s);
    }
}

/// Trimming twice is trimming once.
pub proof fn lemma_trim_white_idempotent(s: Seq<char>)
    ensures
        trim_white(trim_white(s)) == trim_white(s),
{
    let a = strip_start(s, true, ' ');
    let b = strip_end(a, true, ' ');
    lemma_strip_start_head(s, true, ' ');
    lemma_strip_end_prefix(a, true, ' ');
    if b.len() > 0 {
        assert(b[0] == a[0]);
        assert(strip_start(b, true, ' ') == b);
        assert(strip_end(b, true, ' ') == b);
    }
}

/// Length of the leading run of characters other than `sep` (`white`: other than white space).
pub open spec fn run_len(s: Seq<char>, white: bool, sep: char) -> nat
    decreases s.len(),
{
    if s.len() > 0 && !trimmed_char(white, sep, s[0]) {
        1 + run_len(s.drop_first(), white, sep)
    } else {
        0
    }
}

proof fn lemma_run_len_bound(s: Seq<char>, white: bool, sep: char)
    ensures
        run_len(s, white, sep) <= s.len(),
        run_len(s, white, sep) < s.len() ==> trimmed_char(white, sep, s[run_len(s, white, sep) as int]),
        forall|k: int| 0 <= k < run_len(s, white, sep) ==> !trimmed_char(white, sep, #[trigger] s[k]),
    decreases s.len(),
{
    if s.len() > 0 && !trimmed_char(white, sep, s[0]) {
        lemma_run_len_bound(s.drop_first(), white, sep);
        assert forall|k: int| 0 <= k < run_len(s, white, sep) implies !trimmed_char(
            white,
            sep,
            #[trigger] s[k],
        ) by {
            if k > 0 {
                assert(s[k] == s.drop_first()[k - 1]);
            }
        }
    }
}

proof fn lemma_run_len_step(s: Seq<char>, white: bool, sep: char, j: int)
    requires
        0 <= j < s.len(),
        !trimmed_char(white, sep, s[j]),
    ensures
        run_len(s.skip(j), white, sep) == 1 + run_len(s.skip(j + 1), white, sep),
{
    assert(s.skip(j).drop_first() =~= s.skip(j + 1));
}

/// `str::split_whitespace`: the maximal runs of characters other than white space.
pub open spec fn words(s: Seq<char>) -> Seq<Seq<char>>
    decreases s.len(),
{
    if s.len() == 0 {
        seq![]
    } else if is_white_space(s[0]) {
        words(s.drop_first())
    } else {
        let n = run_len(s, true, ' ');
        if 0 < n <= s.len() {
            seq![s.take(n as int)] + words(s.skip(n as int))
        } else {
            seq![]
        }
    }
}

/// The length of the run of non-separators at `i`, computed.
fn run_end(s: &[char], i: usize, white: bool, sep: char) -> (j: usize)
    requires
        i <= s@.len(),
    ensures
        i <= j <= s@.len(),
        j == i + run_len(s@.skip(i as int), white, sep),
{
    let mut j: usize = i;
    while j < s.len() && !trim_test(white, sep, s[j])
        invariant
            i <= j <= s@.len(),
            run_len(s@.skip(i as int), white, sep) == (j - i) + run_len(
                s@.skip(j as int),
                white,
                sep,
            ),
        decreases s@.len() - j,
    {
        proof {
            lemma_run_len_step(s@, white, sep, j as int);
        }
        j = j + 1;
    }
    j
}

/// Copy of `s[a..b]`.
pub fn slice_copy(s: &[char], a: usize, b: usize) -> (r: Vec<char>)
    requires
        a <= b <= s@.len(),
    ensures
        r@ == s@.subrange(a as int, b as int),
{
    let mut out: Vec<char> = Vec::new();
    let mut i: usize = a;
    while i < b
        invariant
            a <= i <= b <= s@.len(),
            out@ == s@.subrange(a as int, i as int),
        decreases b - i,
    {
        out.push(s[i]);
        i = i + 1;
        assert(out@ =~= s@.subrange(a as int, i as int));
    }
    out
}

/// `str::split_whitespace`, collected.
pub fn split_white(s: &[char]) -> (r: Vec<Vec<char>>)
    ensures
        texts_of(r@) == words(s@),
{
    let mut out: Vec<Vec<char>> = Vec::new();
    let mut i: usize = 0;
    assert(s@.skip(0) =~= s@);
    while i < s.len()
        invariant
            i <= s@.len(),
            texts_of(out@) + words(s@.skip(i as int)) == words(s@),
        decreases s@.len() - i,
    {
        let ghost t = s@.skip(i as int);
        if white_space(s[i]) {
            assert(t.drop_first() =~= s@.skip(i + 1));
            i = i + 1;
        } else {
            let j = run_end(s, i, true, ' ');
            proof {
                lemma_run_len_bound(t, true, ' ');
                assert(t.take(j - i) =~= s@.subrange(i as int, j as int));
                assert(t.skip(j - i) =~= s@.skip(j as int));
            }
            let w = slice_copy(s, i, j);
            let ghost before = texts_of(out@);
            out.push(w);
            assert(texts_of(out@) =~= before.push(w@));
            assert(words(t) == seq![w@] + words(s@.skip(j as int)));
            assert(texts_of(out@) + words(s@.skip(j as int)) =~= before + words(t));
            i = j;
        }
    }
    assert(words(s@.skip(i as int)) =~= Seq::<Seq<char>>::empty()) by {
        assert(s@.skip(i as int).len() == 0);
    }
    assert(texts_of(out@) =~= words(s@));
    out
}

/// `str::split(sep)`: the pieces between separators, empty ones included.
pub open spec fn pieces(s: Seq<char>, sep: char) -> Seq<Seq<char>>
    decreases s.len(),
{
    let n = run_len(s, false, sep);
    if n >= s.len() {
        seq![s]
    } else {
        seq![s.take(n as int)] + pieces(s.skip(n + 1 as int), sep)
    }
}

/// `str::split(sep)`, collected.
pub fn split_on(s: &[char], sep: char) -> (r: Vec<Vec<char>>)
    ensures
        texts_of(r@) == pieces(s@, sep),
{
    let mut out: Vec<Vec<char>> = Vec::new();
    let mut i: usize = 0;
    assert(s@.skip(0) =~= s@);
    loop
        invariant
            i <= s@.len(),
            texts_of(out@) + pieces(s@.skip(i as int), sep) == pieces(s@, sep),
        decreases s@.len() - i,
    {
        let ghost t = s@.skip(i as int);
        let j = run_end(s, i, false, sep);
        proof {
            lemma_run_len_bound(t, false, sep);
        }
        let w = slice_copy(s, i, j);
        let ghost before = texts_of(out@);
        out.push(w);
        assert(texts_of(out@) =~= before.push(w@));
        if j == s.len() {
            assert(w@ =~= t);
            assert(pieces(t, sep) == seq![t]);
            assert(texts_of(out@) =~= before + pieces(t, sep));
            return out;
        }
        assert(t.take(j - i) =~= w@);
        assert(t.skip(j - i + 1) =~= s@.skip(j + 1));
        assert(texts_of(out@) + pieces(s@.skip(j + 1), sep) =~= before + pieces(t, sep));
        i = j + 1;
    }
}

/// `parts.join(" ")`.
pub open spec fn join_space(parts: Seq<Seq<char>>) -> Seq<char>
    decreases parts.len(),
{
    if parts.len() == 0 {
        seq![]
    } else if parts.len() == 1 {
        parts[0]
    } else {
        join_space(parts.drop_last()) + seq![' '] + parts.last()
    }
}

/// `parts[from..].join(" ")`.
pub fn join_from(parts: &Vec<Vec<char>>, from: usize) -> (r: Vec<char>)
    requires
        from <= parts@.len(),
    ensures
        r@ == join_space(texts_of(parts@).skip(from as int)),
{
    let mut out: Vec<char> = Vec::new();
    let mut i: usize = from;
    assert(texts_of(parts@).subrange(from as int, from as int) =~= Seq::<Seq<char>>::empty());
    while i < parts.len()
        invariant
            from <= i <= parts@.len(),
            out@ == join_space(texts_of(parts@).subrange(from as int, i as int)),
        decreases parts@.len() - i,
    {
        let ghost prev = texts_of(parts@).subrange(from as int, i as int);
        let ghost next = texts_of(parts@).subrange(from as int, i + 1);
        assert(next.drop_last() =~= prev);
        assert(next.last() == texts_of(parts@)[i as int]);
        if i > from {
            out.push(' ');
        }
        let mut j: usize = 0;
        let ghost base = out@;
        while j < parts[i].len()
            invariant
                i < parts@.len(),
                j <= parts@[i as int]@.len(),
                out@ == base + parts@[i as int]@.take(j as int),
            decreases parts@[i as int]@.len() - j,
        {
            out.push(parts[i][j]);
            j = j + 1;
            assert(out@ =~= base + parts@[i as int]@.take(j as int));
        }
        assert(parts@[i as int]@.take(j as int) =~= parts@[i as int]@);
        if i == from {
            assert(out@ =~= join_space(next));
        } else {
            assert(out@ =~= join_space(next));
        }
        i = i + 1;
    }
    assert(texts_of(parts@).subrange(from as int, parts@.len() as int) =~= texts_of(parts@).skip(
        from as int,
    ));
    out
}

/// `l.starts_with(r)`.
pub open spec fn begins_with(l: Seq<char>, r: Seq<char>) -> bool {
    r.len() <= l.len() && l.take(r.len() as int) == r
}

/// `l.ends_with(r)`.
pub open spec fn finishes_with(l: Seq<char>, r: Seq<char>) -> bool {
    r.len() <= l.len() && l.skip(l.len() - r.len()) == r
}

/// `l.contains(r)`: `r` occurs in `l` at some position.
pub open spec fn occurs_at(l: Seq<char>, r: Seq<char>, i: int) -> bool {
    0 <= i && i + r.len() <= l.len() && l.subrange(i, i + r.len()) == r
}

/// `l.contains(r)` for a text pattern.
pub open spec fn has_part(l: Seq<char>, r: Seq<char>) -> bool {
    exists|i: int| occurs_at(l, r, i)
}

/// Whether `r` occurs in `l` at position `i`.
fn matches_at(l: &[char], r: &[char], i: usize) -> (b: bool)
    ensures
        b == occurs_at(l@, r@, i as int),
{
    if i > l.len() || r.len() > l.len() - i {
        return false;
    }
    let mut k: usize = 0;
    while k < r.len()
        invariant
            i + r@.len() <= l@.len(),
            l@.len() <= usize::MAX,
            k <= r@.len(),
            forall|m: int| 0 <= m < k ==> l@[i + m] == r@[m],
        decreases r@.len() - k,
    {
        if l[i + k] != r[k] {
            assert(l@.subrange(i as int, i + r@.len())[k as int] != r@[k as int]);
            return false;
        }
        k = k + 1;
    }
    assert(l@.subrange(i as int, i + r@.len()) =~= r@);
    true
}

/// `str::starts_with`.
pub fn starts_with_chars(l: &[char], r: &[char]) -> (b: bool)
    ensures
        b == begins_with(l@, r@),
{
    let b = matches_at(l, r, 0);
    assert(l@.take(r@.len() as int) =~= l@.subrange(0, r@.len() as int));
    b
}

/// `str::ends_with`.
pub fn ends_with_chars(l: &[char], r: &[char]) -> (b: bool)
    ensures
        b == finishes_with(l@, r@),
{
    if r.len() > l.len() {
        return false;
    }
    let b = matches_at(l, r, l.len() - r.len());
    assert(l@.skip(l@.len() - r@.len()) =~= l@.subrange(l@.len() - r@.len(), l@.len() as int));
    b
}

/// `str::contains` with a text pattern.
pub fn contains_chars(l: &[char], r: &[char]) -> (b: bool)
    ensures
        b == has_part(l@, r@),
{
    if r.len() > l.len() {
        return false;
    }
    let last = l.len() - r.len();
    let mut i: usize = 0;
    loop
        invariant
            r@.len() <= l@.len(),
            last == l@.len() - r@.len(),
            i <= last,
            forall|m: int| 0 <= m < i ==> !occurs_at(l@, r@, m),
        ensures
            forall|m: int| 0 <= m <= last ==> !occurs_at(l@, r@, m),
        decreases last - i,
    {
        if matches_at(l, r, i) {
            return true;
        }
        if i == last {
            break;
        }
        i = i + 1;
    }
    assert forall|m: int| !occurs_at(l@, r@, m) by {
        if 0 <= m <= last {
        }
    }
    false
}

/// The order of `String`s: lexicographic by character (UTF-8 byte order
/// agrees with code point order).
pub open spec fn text_order(a: Seq<char>, b: Seq<char>) -> Order
    decreases a.len(),
{
    if a.len() == 0 {
        if b.len() == 0 {
            Order::Equal
        } else {
            Order::Less
        }
    } else if b.len() == 0 {
        Order::Greater
    } else if (a[0] as u32) < (b[0] as u32) {
        Order::Less
    } else if (a[0] as u32) > (b[0] as u32) {
        Order::Greater
    } else {
        text_order(a.drop_first(), b.drop_first())
    }
}

/// Reading the order of two texts the other way round flips it.
pub proof fn lemma_text_order_flip(a: Seq<char>, b: Seq<char>)
    ensures
        text_order(a, b) == match text_order(b, a) {
            Order::Less => Order::Greater,
            Order::Greater => Order::Less,
            Order::Equal => Order::Equal,
        },
    decreases a.len(),
{
    if a.len() > 0 && b.len() > 0 && (a[0] as u32) == (b[0] as u32) {
        lemma_text_order_flip(a.drop_first(), b.drop_first());
    }
}

/// Texts that compare equal are the same text.
pub proof fn lemma_text_order_equal(a: Seq<char>, b: Seq<char>)
    ensures
        text_order(a, b) == Order::Equal ==> a == b,
        a == b ==> text_order(a, b) == Order::Equal,
    decreases a.len(),
{
    if a.len() > 0 && b.len() > 0 {
        lemma_text_order_equal(a.drop_first(), b.drop_first());
        if (a[0] as u32) == (b[0] as u32) && a.drop_first() == b.drop_first() {
            vstd::utf8::char_u32_cast(a[0], a[0] as u32);
            vstd::utf8::char_u32_cast(b[0], b[0] as u32);
            assert(a[0] == b[0]);
            assert(a =~= seq![a[0]] + a.drop_first());
            assert(b =~= seq![b[0]] + b.drop_first());
        }
        if a == b {
            assert(a.drop_first() =~= b.drop_first());
        }
    }
}

/// The order of texts is transitive, strictly where a step is strict.
pub proof fn lemma_text_order_trans(a: Seq<char>, b: Seq<char>, c: Seq<char>)
    ensures
        text_order(a, b) != Order::Greater && text_order(b, c) != Order::Greater ==> text_order(a, c)
            != Order::Greater,
        text_order(a, b) == Order::Less && text_order(b, c) != Order::Greater ==> text_order(a, c)
            == Order::Less,
        text_order(a, b) != Order::Greater && text_order(b, c) == Order::Less ==> text_order(a, c)
            == Order::Less,
    decreases a.len(),
{
    if a.len() > 0 && b.len() > 0 && c.len() > 0 && (a[0] as u32) == (b[0] as u32) && (b[0] as u32)
        == (c[0] as u32) {
        lemma_text_order_trans(a.drop_first(), b.drop_first(), c.drop_first());
    }
}

/// Compare two texts as `String`'s `Ord` does.
pub fn compare_text(a: &[char], b: &[char]) -> (r: Order)
    ensures
        r == text_order(a@, b@),
{
    let mut i: usize = 0;
    assert(a@.skip(0) =~= a@);
    assert(b@.skip(0) =~= b@);
    loop
        invariant
            i <= a@.len(),
            i <= b@.len(),
            text_order(a@, b@) == text_order(a@.skip(i as int), b@.skip(i as int)),
        decreases a@.len() - i,
    {
        let ghost sa = a@.skip(i as int);
        let ghost sb = b@.skip(i as int);
        if i == a.len() {
            if i == b.len() {
                return Order::Equal;
            }
            return Order::Less;
        }
        if i == b.len() {
            return Order::Greater;
        }
        assert(sa[0] == a@[i as int]);
        assert(sb[0] == b@[i as int]);
        let x = a[i] as u32;
        let y = b[i] as u32;
        if x < y {
            return Order::Less;
        }
        if x > y {
            return Order::Greater;
        }
        assert(sa.drop_first() =~= a@.skip(i + 1));
        assert(sb.drop_first() =~= b@.skip(i + 1));
        i = i + 1;
    }
}

/// The decimal character of a digit.
pub open spec fn digit_char(d: nat) -> char {
    if d == 0 {
        '0'
    } else if d == 1 {
        '1'
    } else if d == 2 {
        '2'
    } else if d == 3 {
        '3'
    } else if d == 4 {
        '4'
    } else if d == 5 {
        '5'
    } else if d == 6 {
        '6'
    } else if d == 7 {
        '7'
    } else if d == 8 {
        '8'
    } else {
        '9'
    }
}

/// Decimal digits of a natural number, most significant first, no leading zeros.
pub open spec fn decimal(n: nat) -> Seq<char>
    decreases n,
{
    if n < 10 {
        seq![digit_char(n)]
    } else {
        decimal(n / 10).push(digit_char(n % 10))
    }
}

/// `i64`'s `Display`: an optional minus sign, then the decimal digits.
pub open spec fn int_text(i: int) -> Seq<char> {
    if i < 0 {
        seq!['-'] + decimal((-i) as nat)
    } else {
        decimal(i as nat)
    }
}

fn digit_of(d: u64) -> (c: char)
    requires
        d < 10,
    ensures
        c == digit_char(d as nat),
{
    if d == 0 {
        '0'
    } else if d == 1 {
        '1'
    } else if d == 2 {
        '2'
    } else if d == 3 {
        '3'
    } else if d == 4 {
        '4'
    } else if d == 5 {
        '5'
    } else if d == 6 {
        '6'
    } else if d == 7 {
        '7'
    } else if d == 8 {
        '8'
    } else {
        '9'
    }
}

fn push_decimal(n: u64, out: &mut Vec<char>)
    ensures
        final(out)@ == old(out)@ + decimal(n as nat),
    decreases n,
{
    if n >= 10 {
        push_decimal(n / 10, out);
    }
    out.push(digit_of(n % 10));
    assert(final(out)@ =~= old(out)@ + decimal(n as nat));
}

/// `i64::to_string`, as characters.
pub fn int_chars(i: i64) -> (r: Vec<char>)
    ensures
        r@ == int_text(i as int),
{
    let mut out: Vec<char> = Vec::new();
    if i < 0 {
        out.push('-');
        let mag: u64 = if i == i64::MIN {
            9223372036854775808u64
        } else {
            (-i) as u64
        };
        push_decimal(mag, &mut out);
    } else {
        push_decimal(i as u64, &mut out);
    }
    assert(out@ =~= int_text(i as int));
    out
}

/// `bool`'s `Display`.
pub open spec fn bool_text(b: bool) -> Seq<char> {
    if b {
        seq!['t', 'r', 'u', 'e']
    } else {
        seq!['f', 'a', 'l', 's', 'e']
    }
}

/// `bool::to_string`, as characters.
pub fn bool_chars(b: bool) -> (r: Vec<char>)
    ensures
        r@ == bool_text(b),
{
    let mut out: Vec<char> = Vec::new();
    if b {
        out.push('t');
        out.push('r');
        out.push('u');
        out.push('e');
    } else {
        out.push('f');
        out.push('a');
        out.push('l');
        out.push('s');
        out.push('e');
    }
    assert(out@ =~= bool_text(b));
    out
}

} // verus!
