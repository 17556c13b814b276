use vstd::prelude::*;

verus! {

broadcast use vstd::string::group_string_axioms;

/// Calls `String::push`; claims that the text grows by exactly that character.
#[verifier::external_body]
pub(crate) fn push_char(s: &mut String, c: char)
    ensures
        final(s)@ == old(s)@.push(c),
{
    s.push(c);
}

/// The characters of `s` with every single quote doubled.
pub open spec fn double_quotes(s: Seq<char>) -> Seq<char>
    decreases s.len(),
{
    if s.len() == 0 {
        Seq::empty()
    } else {
        let rest = double_quotes(s.drop_last());
        if s.last() == '\'' {
            rest.push('\'').push('\'')
        } else {
            rest.push(s.last())
        }
    }
}

/// A YAML single-quoted scalar holding exactly `s`.
pub open spec fn spec_yaml_escape(s: Seq<char>) -> Seq<char> {
    seq!['\''] + double_quotes(s) + seq!['\'']
}

/// Quotes `s` as a YAML single-quoted scalar: the text is wrapped in single
/// quotes and every single quote inside it is doubled.
pub fn yaml_escape(s: &str) -> (res: String)
    ensures
        res@ == spec_yaml_escape(s@),
{
    let mut out = String::new();
    push_char(&mut out, '\'');
    for c in it: s.chars()
        invariant
            it.seq() == s@,
            out@ == seq!['\''] + double_quotes(s@.take(it.index() as int)),
    {
        assert(s@.take(it.index() + 1).drop_last() == s@.take(it.index() as int));
        if c == '\'' {
            push_char(&mut out, '\'');
            push_char(&mut out, '\'');
        } else {
            push_char(&mut out, c);
        }
    }
    assert(s@.take(s@.len() as int) == s@);
    push_char(&mut out, '\'');
    out
}

/// Undoes `double_quotes`: a pair of single quotes becomes one.
pub open spec fn undouble_quotes(t: Seq<char>) -> Seq<char>
    decreases t.len(),
{
    if t.len() == 0 {
        Seq::empty()
    } else if t.last() == '\'' && t.len() >= 2 {
        undouble_quotes(t.take(t.len() - 2)).push('\'')
    } else {
        undouble_quotes(t.drop_last()).push(t.last())
    }
}

/// The text held by a YAML single-quoted scalar.
pub open spec fn spec_yaml_unescape(q: Seq<char>) -> Seq<char> {
    undouble_quotes(q.subrange(1, q.len() - 1))
}

proof fn lemma_undouble_double(s: Seq<char>)
    ensures
        undouble_quotes(double_quotes(s)) == s,
    decreases s.len(),
{
    if s.len() > 0 {
        lemma_undouble_double(s.drop_last());
        let r = double_quotes(s.drop_last());
        let t = double_quotes(s);
        if s.last() == '\'' {
            assert(t.take(t.len() - 2) == r);
        } else {
            assert(t.drop_last() == r);
        }
        assert(s.drop_last().push(s.last()) == s);
    }
}

/// Quoting loses nothing: the quoted scalar reads back as the original text,
/// so different texts are quoted differently.
pub proof fn law_yaml_escape_roundtrip(a: Seq<char>, b: Seq<char>)
    ensures
        spec_yaml_unescape(spec_yaml_escape(a)) == a,
        spec_yaml_escape(a) == spec_yaml_escape(b) ==> a == b,
{
    let qa = spec_yaml_escape(a);
    assert(qa.subrange(1, qa.len() - 1) == double_quotes(a));
    lemma_undouble_double(a);
    let qb = spec_yaml_escape(b);
    assert(qb.subrange(1, qb.len() - 1) == double_quotes(b));
    lemma_undouble_double(b);
}

/// Unicode `White_Space` characters, the ones `char::is_whitespace` accepts.
pub open spec fn is_white_space(c: char) -> bool {
    let v = c as int;
    ||| 0x09 <= v <= 0x0D
    ||| v == 0x20
    ||| v == 0x85
    ||| v == 0xA0
    ||| v == 0x1680
    ||| 0x2000 <= v <= 0x200A
    ||| v == 0x2028
    ||| v == 0x2029
    ||| v == 0x202F
    ||| v == 0x205F
    ||| v == 0x3000
}

/// Whether `c` is white space (the Unicode `White_Space` property).
pub fn white_space(c: char) -> (res: bool)
    ensures
        res == is_white_space(c),
{
    let v = c as u32;
    (0x09 <= v && v <= 0x0D) || v == 0x20 || v == 0x85 || v == 0xA0 || v == 0x1680 || (0x2000 <= v
        && v <= 0x200A) || v == 0x2028 || v == 0x2029 || v == 0x202F || v == 0x205F || v == 0x3000
}

/// `s` without its trailing white space.
pub open spec fn trim_end(s: Seq<char>) -> Seq<char>
    decreases s.len(),
{
    if s.len() > 0 && is_white_space(s.last()) {
        trim_end(s.drop_last())
    } else {
        s
    }
}

/// `s` without its leading white space.
pub open spec fn trim_start(s: Seq<char>) -> Seq<char>
    decreases s.len(),
{
    if s.len() > 0 && is_white_space(s[0]) {
        trim_start(s.drop_first())
    } else {
        s
    }
}

/// `s` without leading and trailing white space, as `str::trim` gives it.
pub open spec fn spec_trim(s: Seq<char>) -> Seq<char> {
    trim_start(trim_end(s))
}

proof fn lemma_trim_end(s: Seq<char>)
    ensures
        trim_end(s).len() <= s.len(),
        trim_end(s) == s.take(trim_end(s).len() as int),
        trim_end(s).len() > 0 ==> !is_white_space(trim_end(s).last()),
    decreases s.len(),
{
    if s.len() > 0 && is_white_space(s.last()) {
        lemma_trim_end(s.drop_last());
        assert(s.drop_last().take(trim_end(s).len() as int) == s.take(trim_end(s).len() as int));
    } else {
        assert(s.take(s.len() as int) == s);
    }
}

proof fn lemma_trim_start(s: Seq<char>)
    ensures
        trim_start(s).len() <= s.len(),
        trim_start(s) == s.skip(s.len() - trim_start(s).len()),
        trim_start(s).len() > 0 ==> !is_white_space(trim_start(s)[0]),
    decreases s.len(),
{
    if s.len() > 0 && is_white_space(s[0]) {
        lemma_trim_start(s.drop_first());
        assert(s.drop_first().skip(s.drop_first().len() - trim_start(s).len()) == s.skip(s.len() - trim_start(s).len()));
    } else {
        assert(s.skip(0) == s);
    }
}

/// Trimmed text neither starts nor ends with white space.
pub proof fn law_trim_edges(s: Seq<char>)
    ensures
        spec_trim(s).len() > 0 ==> !is_white_space(spec_trim(s)[0]) && !is_white_space(spec_trim(s).last()),
{
    let e = trim_end(s);
    lemma_trim_end(s);
    lemma_trim_start(e);
    let t = trim_start(e);
    if t.len() > 0 {
        assert(t.last() == e.last());
    }
}

/// `s` with leading and trailing white space removed.
pub fn trim(s: &str) -> (res: String)
    ensures
        res@ == spec_trim(s@),
{
    let v = chars_of(s);
    let mut e: usize = v.len();
    assert(s@.take(e as int) == s@);
    while e > 0 && white_space(v[e - 1])
        invariant
            v@ == s@,
            e <= v@.len(),
            trim_end(s@) == trim_end(s@.take(e as int)),
        decreases e,
    {
        assert(s@.take(e as int).drop_last() == s@.take(e - 1));
        e = e - 1;
    }
    let ghost t = s@.take(e as int);
    assert(trim_end(s@) == t);
    let mut b: usize = 0;
    assert(t.skip(0) == t);
    while b < e && white_space(v[b])
        invariant
            v@ == s@,
            b <= e <= v@.len(),
            t == s@.take(e as int),
            trim_start(t) == trim_start(t.skip(b as int)),
        decreases e - b,
    {
        assert(t.skip(b as int).drop_first() == t.skip(b + 1));
        b = b + 1;
    }
    assert(trim_start(t) == t.skip(b as int));
    assert(t.skip(b as int) == s@.subrange(b as int, e as int));
    s.substring_char(b, e).to_owned()
}

/// The views of a list of strings.
pub open spec fn views(v: Seq<String>) -> Seq<Seq<char>> {
    v.map_values(|x: String| x@)
}

/// The pieces of `s` between occurrences of `sep`, as `str::split` gives them:
/// one more piece than there are separators, empty pieces included.
pub open spec fn spec_split(s: Seq<char>, sep: char) -> Seq<Seq<char>>
    decreases s.len(),
{
    if s.len() == 0 {
        seq![Seq::empty()]
    } else {
        let r = spec_split(s.drop_last(), sep);
        if s.last() == sep {
            r.push(Seq::empty())
        } else {
            r.update(r.len() - 1, r.last().push(s.last()))
        }
    }
}

proof fn lemma_split_nonempty(s: Seq<char>, sep: char)
    ensures
        spec_split(s, sep).len() >= 1,
    decreases s.len(),
{
    if s.len() > 0 {
        lemma_split_nonempty(s.drop_last(), sep);
    }
}

/// Splits `s` at every occurrence of `sep`.
pub fn split(s: &str, sep: char) -> (res: Vec<String>)
    ensures
        views(res@) == spec_split(s@, sep),
{
    let mut done: Vec<String> = Vec::new();
    let mut cur = String::new();
    for c in it: s.chars()
        invariant
            it.seq() == s@,
            views(done@).push(cur@) == spec_split(s@.take(it.index() as int), sep),
    {
        let ghost pre = s@.take(it.index() as int);
        assert(s@.take(it.index() + 1).drop_last() == pre);
        proof { lemma_split_nonempty(pre, sep); }
        if c == sep {
            let mut finished = String::new();
            std::mem::swap(&mut cur, &mut finished);
            done.push(finished);
            assert(views(done@).push(cur@) =~= spec_split(s@.take(it.index() + 1), sep));
        } else {
            push_char(&mut cur, c);
            assert(views(done@).push(cur@) =~= spec_split(s@.take(it.index() + 1), sep));
        }
    }
    assert(s@.take(s@.len() as int) == s@);
    done.push(cur);
    assert(views(done@) =~= spec_split(s@, sep));
    done
}

/// `s` without one trailing carriage return.
pub open spec fn strip_cr(s: Seq<char>) -> Seq<char> {
    if s.len() > 0 && s.last() == '\r' {
        s.drop_last()
    } else {
        s
    }
}

/// Each string without one trailing carriage return.
pub open spec fn strip_crs(ps: Seq<Seq<char>>) -> Seq<Seq<char>> {
    ps.map_values(|p: Seq<char>| strip_cr(p))
}

/// Each string trimmed of surrounding white space.
pub open spec fn trims(ls: Seq<Seq<char>>) -> Seq<Seq<char>> {
    ls.map_values(|l: Seq<char>| spec_trim(l))
}

/// The lines of `s` as `str::lines` gives them: split at `\n`, a `\r` just
/// before a `\n` dropped, and no final empty line after a last line ending.
pub open spec fn spec_lines(s: Seq<char>) -> Seq<Seq<char>> {
    let ps = spec_split(s, '\n');
    let ended = strip_crs(ps.drop_last());
    if ps.last().len() == 0 {
        ended
    } else {
        ended.push(ps.last())
    }
}

/// The non-empty strings among `ls`, in order.
pub open spec fn keep_nonempty(ls: Seq<Seq<char>>) -> Seq<Seq<char>>
    decreases ls.len(),
{
    if ls.len() == 0 {
        Seq::empty()
    } else if ls.last().len() > 0 {
        keep_nonempty(ls.drop_last()).push(ls.last())
    } else {
        keep_nonempty(ls.drop_last())
    }
}

/// What `keep_nonempty` keeps is non-empty and taken from the input.
pub proof fn lemma_keep_nonempty(ls: Seq<Seq<char>>)
    ensures
        forall|i: int| 0 <= i < keep_nonempty(ls).len() ==> #[trigger] keep_nonempty(ls)[i].len() > 0,
        forall|i: int| 0 <= i < keep_nonempty(ls).len() ==> ls.contains(#[trigger] keep_nonempty(ls)[i]),
    decreases ls.len(),
{
    if ls.len() > 0 {
        lemma_keep_nonempty(ls.drop_last());
        let r = keep_nonempty(ls.drop_last());
        assert forall|i: int| 0 <= i < keep_nonempty(ls).len() implies ls.contains(#[trigger] keep_nonempty(ls)[i]) by {
            if i < r.len() {
                let j = choose|j: int| 0 <= j < ls.drop_last().len() && ls.drop_last()[j] == r[i];
                assert(ls[j] == r[i]);
            } else {
                assert(ls[ls.len() - 1] == ls.last());
            }
        }
    }
}

/// The lines of `s`.
pub fn lines(s: &str) -> (res: Vec<String>)
    ensures
        views(res@) == spec_lines(s@),
{
    let pieces = split(s, '\n');
    proof {
        lemma_split_nonempty(s@, '\n');
    }
    let n = pieces.len();
    let mut out: Vec<String> = Vec::new();
    let ghost ps = views(pieces@);
    for i in 0..n - 1
        invariant
            n == pieces@.len(),
            n >= 1,
            ps == views(pieces@),
            ps == spec_split(s@, '\n'),
            out@.len() == i,
            views(out@) == strip_crs(ps.drop_last()).take(i as int),
    {
        assert(ps[i as int] == pieces@[i as int]@);
        let l = strip_trailing_cr(pieces[i].as_str());
        let ghost before = out@;
        out.push(l);
        assert(strip_crs(ps.drop_last())[i as int] == strip_cr(ps[i as int]));
        assert(views(out@)[i as int] == out@[i as int]@);
        assert(views(out@).drop_last() =~= views(before));
        assert(views(out@) =~= strip_crs(ps.drop_last()).take(i + 1));
    }
    assert(strip_crs(ps.drop_last()).take(n - 1) == strip_crs(ps.drop_last()));
    assert(ps.last() == pieces@[n - 1]@);
    if !pieces[n - 1].as_str().is_empty() {
        let last = pieces[n - 1].as_str().to_owned();
        out.push(last);
        assert(views(out@) =~= spec_lines(s@));
    }
    out
}

/// Keeps the non-empty strings of `v`, in order.
fn nonempty_only(v: Vec<String>) -> (res: Vec<String>)
    ensures
        views(res@) == keep_nonempty(views(v@)),
{
    let mut out: Vec<String> = Vec::new();
    let n = v.len();
    for i in 0..n
        invariant
            n == v@.len(),
            views(out@) == keep_nonempty(views(v@).take(i as int)),
    {
        let ghost vs = views(v@);
        assert(vs.take(i + 1).drop_last() == vs.take(i as int));
        assert(vs[i as int] == v@[i as int]@);
        if !v[i].as_str().is_empty() {
            out.push(v[i].as_str().to_owned());
        }
        assert(views(out@) =~= keep_nonempty(vs.take(i + 1)));
    }
    assert(views(v@).take(n as int) == views(v@));
    out
}

/// The non-empty lines of `s`: what `s.lines().filter(|l| !l.is_empty())` yields.
pub open spec fn spec_nonempty_lines(s: Seq<char>) -> Seq<Seq<char>> {
    keep_nonempty(spec_lines(s))
}

/// The non-empty lines of `s`.
pub fn nonempty_lines(s: &str) -> (res: Vec<String>)
    ensures
        views(res@) == spec_nonempty_lines(s@),
{
    nonempty_only(lines(s))
}

/// The lines of `s` with surrounding white space removed, empty ones left out.
pub open spec fn spec_trimmed_lines(s: Seq<char>) -> Seq<Seq<char>> {
    keep_nonempty(trims(spec_lines(s)))
}

/// The lines of `s`, trimmed, without the empty ones.
pub fn trimmed_lines(s: &str) -> (res: Vec<String>)
    ensures
        views(res@) == spec_trimmed_lines(s@),
{
    let ls = lines(s);
    let mut t: Vec<String> = Vec::new();
    let n = ls.len();
    for i in 0..n
        invariant
            n == ls@.len(),
            t@.len() == i,
            views(t@) == trims(views(ls@)).take(i as int),
    {
        assert(views(ls@)[i as int] == ls@[i as int]@);
        let ghost before = t@;
        t.push(trim(ls[i].as_str()));
        assert(trims(views(ls@))[i as int] == spec_trim(views(ls@)[i as int]));
        assert(views(t@)[i as int] == t@[i as int]@);
        assert(views(t@).drop_last() =~= views(before));
        assert(views(t@) =~= trims(views(ls@)).take(i + 1));
    }
    assert(trims(views(ls@)).take(n as int) == trims(views(ls@)));
    nonempty_only(t)
}

/// `s` without one trailing carriage return.
fn strip_trailing_cr(s: &str) -> (res: String)
    ensures
        res@ == strip_cr(s@),
{
    let n = s.unicode_len();
    if n > 0 && s.get_char(n - 1) == '\r' {
        s.substring_char(0, n - 1).to_owned()
    } else {
        assert(s@.subrange(0, n as int) == s@);
        s.substring_char(0, n).to_owned()
    }
}

/// The text that `String::from_utf8_lossy` reads from bytes: invalid
/// sequences become U+FFFD.
pub uninterp spec fn spec_utf8_lossy(bytes: Seq<u8>) -> Seq<char>;

/// Reads bytes as UTF-8 text with `String::from_utf8_lossy`. Claims that the
/// result is a function of the bytes, and that valid UTF-8 is read exactly.
#[verifier::external_body]
pub(crate) fn utf8_lossy(bytes: &[u8]) -> (res: String)
    ensures
        res@ == spec_utf8_lossy(bytes@),
        vstd::utf8::valid_utf8(bytes@) ==> res@ == vstd::utf8::decode_utf8(bytes@),
{
    String::from_utf8_lossy(bytes).into_owned()
}

/// The lower-case form of a string, as `str::to_lowercase` gives it (full
/// Unicode case mapping).
pub uninterp spec fn spec_lowercase(s: Seq<char>) -> Seq<char>;

/// ASCII text with its letters `A`-`Z` turned into `a`-`z`.
pub open spec fn ascii_lower(s: Seq<char>) -> Seq<char> {
    s.map_values(|c: char| if 'A' <= c <= 'Z' { ((c as u32) + 32) as char } else { c })
}

/// The lower-case form of one character: `A`-`Z` become `a`-`z`, other
/// ASCII stays; the Latin-1 capitals `À`-`Þ` (but for `×`) become `à`-`þ`,
/// the rest of Latin-1 stays; any other character lowers as the text of that
/// character alone.
pub open spec fn char_lower(c: char) -> Seq<char> {
    if 'A' <= c <= 'Z' {
        seq![((c as u32) + 32) as char]
    } else if c <= '\u{7f}' {
        seq![c]
    } else if '\u{c0}' <= c <= '\u{de}' && c != '\u{d7}' {
        seq![((c as u32) + 32) as char]
    } else if c <= '\u{ff}' {
        seq![c]
    } else {
        spec_lowercase(seq![c])
    }
}

/// Each character lowered on its own, the results joined.
pub open spec fn lower_chars(s: Seq<char>) -> Seq<char>
    decreases s.len(),
{
    if s.len() == 0 {
        Seq::empty()
    } else {
        lower_chars(s.drop_last()) + char_lower(s.last())
    }
}

/// The lower-case form of a text: character by character, except in text
/// with a capital sigma, whose form depends on its place in a word.
pub open spec fn lowercase_of(s: Seq<char>) -> Seq<char> {
    if s.contains('\u{3a3}') {
        spec_lowercase(s)
    } else {
        lower_chars(s)
    }
}

proof fn lemma_lower_chars_concat(a: Seq<char>, b: Seq<char>)
    ensures
        lower_chars(a + b) == lower_chars(a) + lower_chars(b),
    decreases b.len(),
{
    if b.len() == 0 {
        assert(a + b =~= a);
        assert(lower_chars(a) + lower_chars(b) =~= lower_chars(a));
    } else {
        lemma_lower_chars_concat(a, b.drop_last());
        assert((a + b).drop_last() =~= a + b.drop_last());
        assert((a + b).last() == b.last());
        assert(lower_chars(a + b) =~= lower_chars(a) + lower_chars(b));
    }
}

/// Lower-casing text without a capital sigma goes character by character:
/// the lower-case form of two texts put together is their lower-case forms
/// put together.
pub proof fn law_lowercase_concat(a: Seq<char>, b: Seq<char>)
    requires
        !a.contains('\u{3a3}'),
        !b.contains('\u{3a3}'),
    ensures
        lowercase_of(a + b) == lowercase_of(a) + lowercase_of(b),
{
    lemma_lower_chars_concat(a, b);
    if (a + b).contains('\u{3a3}') {
        let i = choose|i: int| 0 <= i < (a + b).len() && (a + b)[i] == '\u{3a3}';
        if i < a.len() {
            assert(a[i] == '\u{3a3}');
        } else {
            assert(b[i - a.len()] == '\u{3a3}');
        }
    }
}

/// Lower-casing ASCII text turns `A`-`Z` into `a`-`z` and keeps the rest.
pub proof fn law_lowercase_ascii(s: Seq<char>)
    requires
        vstd::utf8::is_ascii_chars(s),
    ensures
        lowercase_of(s) == ascii_lower(s),
    decreases s.len(),
{
    if s.contains('\u{3a3}') {
        let i = choose|i: int| 0 <= i < s.len() && s[i] == '\u{3a3}';
        assert(s[i] <= '\u{7f}');
    }
    if s.len() > 0 {
        assert(vstd::utf8::is_ascii_chars(s.drop_last())) by {
            assert forall|i: int| 0 <= i < s.drop_last().len() implies '\0' <= #[trigger] s.drop_last()[i] <= '\u{7f}' by {
                assert(s.drop_last()[i] == s[i]);
            }
        }
        law_lowercase_ascii(s.drop_last());
        assert(s[s.len() - 1] <= '\u{7f}');
        assert(lowercase_of(s) =~= ascii_lower(s));
    } else {
        assert(lowercase_of(s) =~= ascii_lower(s));
    }
}

/// Latin-1 text with its capitals turned into small letters: `A`-`Z` into
/// `a`-`z`, and `À`-`Þ` (but for `×`) into `à`-`þ`.
pub open spec fn latin1_lower(s: Seq<char>) -> Seq<char> {
    s.map_values(
        |c: char|
            if ('A' <= c <= 'Z') || ('\u{c0}' <= c <= '\u{de}' && c != '\u{d7}') {
                ((c as u32) + 32) as char
            } else {
                c
            },
    )
}

/// Lower-casing Latin-1 text (such as `JOSÉ`) turns each capital into its
/// small letter and keeps every other character.
pub proof fn law_lowercase_latin1(s: Seq<char>)
    requires
        forall|i: int| 0 <= i < s.len() ==> s[i] <= '\u{ff}',
    ensures
        lowercase_of(s) == latin1_lower(s),
    decreases s.len(),
{
    if s.contains('\u{3a3}') {
        let i = choose|i: int| 0 <= i < s.len() && s[i] == '\u{3a3}';
        assert(s[i] <= '\u{ff}');
    }
    if s.len() > 0 {
        assert forall|i: int| 0 <= i < s.drop_last().len() implies s.drop_last()[i] <= '\u{ff}' by {
            assert(s.drop_last()[i] == s[i]);
        }
        law_lowercase_latin1(s.drop_last());
        assert(s[s.len() - 1] <= '\u{ff}');
        assert(lowercase_of(s) =~= latin1_lower(s));
    } else {
        assert(lowercase_of(s) =~= latin1_lower(s));
    }
}

/// Lower-casing finds an ASCII word inside any text without a capital sigma,
/// whatever other characters surround it: the word's lower-case form occurs
/// in the lower-case form of the whole text.
pub proof fn law_lowercase_keeps_ascii_word(x: Seq<char>, t: Seq<char>, y: Seq<char>)
    requires
        !x.contains('\u{3a3}'),
        !t.contains('\u{3a3}'),
        !y.contains('\u{3a3}'),
        vstd::utf8::is_ascii_chars(t),
    ensures
        has_substring(lowercase_of(x + t + y), ascii_lower(t)),
{
    law_lowercase_concat(x, t);
    if (x + t).contains('\u{3a3}') {
        let i = choose|i: int| 0 <= i < (x + t).len() && (x + t)[i] == '\u{3a3}';
        if i < x.len() {
            assert(x[i] == '\u{3a3}');
        } else {
            assert(t[i - x.len()] == '\u{3a3}');
        }
    }
    law_lowercase_concat(x + t, y);
    law_lowercase_ascii(t);
    let whole = lowercase_of(x + t + y);
    let k = lowercase_of(x).len() as int;
    assert(whole == lowercase_of(x) + lowercase_of(t) + lowercase_of(y));
    assert(whole.subrange(k, k + ascii_lower(t).len()) =~= ascii_lower(t));
}

/// Calls `str::to_lowercase`; claims that the result is a function of the
/// text, that text without a capital sigma is lowered character by
/// character, that ASCII letters `A`-`Z` become `a`-`z` and the Latin-1
/// capitals `À`-`Þ` (but for `×`) become `à`-`þ`, and that the rest of
/// Latin-1 stays (as the documentation of `str::to_lowercase` and Unicode's
/// case mapping say).
#[verifier::external_body]
pub(crate) fn to_lowercase(s: &str) -> (res: String)
    ensures
        res@ == spec_lowercase(s@),
        res@ == lowercase_of(s@),
        vstd::utf8::is_ascii_chars(s@) ==> res@ == ascii_lower(s@),
{
    s.to_lowercase()
}

/// Whether `t` occurs in `s` as a contiguous run of characters.
pub open spec fn has_substring(s: Seq<char>, t: Seq<char>) -> bool {
    exists|i: int| 0 <= i && i + t.len() <= s.len() && #[trigger] s.subrange(i, i + t.len()) == t
}

/// Whether `t` occurs in `s`.
pub fn contains_str(s: &str, t: &str) -> (res: bool)
    ensures
        res == has_substring(s@, t@),
{
    let a = chars_of(s);
    let b = chars_of(t);
    if b.len() == 0 {
        assert(s@.subrange(0int, 0int + t@.len()) =~= t@);
        return true;
    }
    let alen = a.len();
    if b.len() > alen {
        return false;
    }
    let last = alen - b.len();
    let mut i: usize = 0;
    while i <= last
        invariant
            a@ == s@,
            b@ == t@,
            b@.len() >= 1,
            alen == a@.len(),
            last == a@.len() - b@.len(),
            last < alen,
            i <= last + 1,
            forall|j: int| 0 <= j < i ==> #[trigger] s@.subrange(j, j + t@.len()) != t@,
        decreases last + 1 - i,
    {
        let mut k: usize = 0;
        let mut same = true;
        while k < b.len() && same
            invariant
                a@ == s@,
                b@ == t@,
                i <= last,
                alen == a@.len(),
                last == a@.len() - b@.len(),
                i + b@.len() <= a@.len(),
                k <= b@.len(),
                same ==> forall|m: int| 0 <= m < k ==> a@[i + m] == b@[m],
                !same ==> s@.subrange(i as int, i + t@.len()) != t@,
            decreases b@.len() - k + (if same { 1int } else { 0int }),
        {
            if a[i + k] != b[k] {
                assert(s@.subrange(i as int, i + t@.len())[k as int] == a@[i + k]);
                same = false;
            } else {
                k = k + 1;
            }
        }
        if same {
            assert(s@.subrange(i as int, i + t@.len()) =~= t@);
            return true;
        }
        i = i + 1;
    }
    proof {
        assert forall|j: int| 0 <= j && j + t@.len() <= s@.len() implies #[trigger] s@.subrange(j, j + t@.len()) != t@ by {
            assert(j < i);
        }
    }
    false
}

/// The UTF-16 code units of one character.
pub open spec fn utf16_of_char(c: char) -> Seq<u16> {
    let v = c as u32;
    if v < 0x10000 {
        seq![v as u16]
    } else {
        seq![(0xD800 + (v - 0x10000) / 0x400) as u16, (0xDC00 + (v - 0x10000) % 0x400) as u16]
    }
}

/// The UTF-16 encoding of `s`, as `str::encode_utf16` gives it.
pub open spec fn spec_utf16(s: Seq<char>) -> Seq<u16>
    decreases s.len(),
{
    if s.len() == 0 {
        Seq::empty()
    } else {
        spec_utf16(s.drop_last()) + utf16_of_char(s.last())
    }
}

/// Appends the UTF-16 code units of `c` to `out`.
fn push_utf16(out: &mut Vec<u16>, c: char)
    ensures
        final(out)@ == old(out)@ + utf16_of_char(c),
{
    let v = c as u32;
    if v < 0x10000 {
        out.push(v as u16);
        assert(final(out)@ =~= old(out)@ + utf16_of_char(c));
    } else {
        let w = v - 0x10000;
        out.push((0xD800 + w / 0x400) as u16);
        out.push((0xDC00 + w % 0x400) as u16);
        assert(final(out)@ =~= old(out)@ + utf16_of_char(c));
    }
}

/// The UTF-16 code units of `s`.
fn utf16_units(s: &str) -> (res: Vec<u16>)
    ensures
        res@ == spec_utf16(s@),
{
    let mut out: Vec<u16> = Vec::new();
    for c in it: s.chars()
        invariant
            it.seq() == s@,
            out@ == spec_utf16(s@.take(it.index() as int)),
    {
        assert(s@.take(it.index() + 1).drop_last() == s@.take(it.index() as int));
        push_utf16(&mut out, c);
    }
    assert(s@.take(s@.len() as int) == s@);
    out
}

/// `s` as a NUL-terminated UTF-16 string, the form that Win32 wide-string
/// parameters take.
pub fn to_wide_nul(s: &str) -> (res: Vec<u16>)
    ensures
        res@ == spec_utf16(s@).push(0),
{
    let mut out = utf16_units(s);
    out.push(0);
    out
}

proof fn lemma_utf16_no_zero(s: Seq<char>)
    requires
        !s.contains('\0'),
    ensures
        forall|i: int| 0 <= i < spec_utf16(s).len() ==> #[trigger] spec_utf16(s)[i] != 0,
    decreases s.len(),
{
    if s.len() > 0 {
        assert(!s.drop_last().contains('\0')) by {
            if s.drop_last().contains('\0') {
                let j = choose|j: int| 0 <= j < s.drop_last().len() && s.drop_last()[j] == '\0';
                assert(s[j] == '\0');
            }
        }
        lemma_utf16_no_zero(s.drop_last());
        let c = s.last();
        assert(s[s.len() - 1] == c);
        assert(c != '\0');
        let r = spec_utf16(s.drop_last());
        let u = utf16_of_char(c);
        let v = c as u32;
        vstd::utf8::char_is_scalar(c);
        vstd::utf8::char_u32_cast(c, v);
        assert(v <= 0x10FFFF);
        assert(v != 0) by {
            if v == 0 {
                assert((0u32 as char) == '\0');
            }
        }
        if v < 0x10000 {
            assert(u[0] == v as u16);
            assert((v as u16) as int == v);
        } else {
            assert(0 <= (v - 0x10000) / 0x400 < 0x400);
            assert(0 <= (v - 0x10000) % 0x400 < 0x400);
            assert(u[0] as int == 0xD800 + (v - 0x10000) / 0x400);
            assert(u[1] as int == 0xDC00 + (v - 0x10000) % 0x400);
        }
        assert forall|i: int| 0 <= i < spec_utf16(s).len() implies #[trigger] spec_utf16(s)[i] != 0 by {
            if i >= r.len() {
                assert(spec_utf16(s)[i] == u[i - r.len()]);
            } else {
                assert(spec_utf16(s)[i] == r[i]);
            }
        }
    }
}

/// A wide string made from text without NUL characters ends at its
/// terminator: the only zero unit is the last one.
pub proof fn law_wide_nul_single_terminator(s: Seq<char>)
    requires
        !s.contains('\0'),
    ensures
        spec_utf16(s).push(0).last() == 0,
        forall|i: int| 0 <= i < spec_utf16(s).len() ==> #[trigger] spec_utf16(s).push(0)[i] != 0,
{
    lemma_utf16_no_zero(s);
    assert forall|i: int| 0 <= i < spec_utf16(s).len() implies #[trigger] spec_utf16(s).push(0)[i] != 0 by {
        assert(spec_utf16(s).push(0)[i] == spec_utf16(s)[i]);
    }
}

/// The tooltip buffer of a tray icon: the first 127 UTF-16 units of `s`,
/// then zeros up to 128 units.
pub open spec fn spec_tray_tip(s: Seq<char>) -> Seq<u16> {
    let u = spec_utf16(s);
    Seq::new(128, |i: int| if i < 127 && i < u.len() { u[i] } else { 0u16 })
}

/// Fills a 128-unit tooltip buffer with `s`, cut to 127 units so that the
/// buffer stays NUL-terminated.
pub fn tray_tip(s: &str) -> (res: Vec<u16>)
    ensures
        res@ == spec_tray_tip(s@),
{
    let u = utf16_units(s);
    let mut tip: Vec<u16> = Vec::new();
    for i in 0..128usize
        invariant
            u@ == spec_utf16(s@),
            tip@.len() == i,
            forall|j: int| 0 <= j < i ==> tip@[j] == spec_tray_tip(s@)[j],
    {
        if i < 127 && i < u.len() {
            tip.push(u[i]);
        } else {
            tip.push(0);
        }
    }
    assert(tip@ =~= spec_tray_tip(s@));
    tip
}

/// The characters of `s`, one by one.
pub fn chars_of(s: &str) -> (res: Vec<char>)
    ensures
        res@ == s@,
{
    let mut out: Vec<char> = Vec::new();
    for c in it: s.chars()
        invariant
            it.seq() == s@,
            out@ == s@.take(it.index() as int),
    {
        assert(s@.take(it.index() + 1) == s@.take(it.index() as int).push(c));
        out.push(c);
    }
    assert(s@.take(s@.len() as int) == s@);
    out
}

} // verus!
