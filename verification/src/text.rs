//! Text normalisation primitives: identifier and folder-path sanitisation,
//! line-ending conversion, slug generation and HTML escaping, together with
//! the character- and sequence-level helpers the rest of the crate builds on.

use vstd::prelude::*;
use vstd::string::*;

verus! {

// ── Character classes ──

/// Characters admitted in a note identifier and in folder-path segments:
/// ASCII letters, digits, `_` and `-`.
pub open spec fn is_id_char(c: char) -> bool {
    ('a' as u32 <= c as u32 && c as u32 <= 'z' as u32)
    || ('A' as u32 <= c as u32 && c as u32 <= 'Z' as u32)
    || ('0' as u32 <= c as u32 && c as u32 <= '9' as u32)
    || c == '_'
    || c == '-'
}

/// The Unicode `White_Space` characters, the set that `str::trim` strips.
pub open spec fn is_ws(c: char) -> bool {
    (0x09 <= c as u32 && c as u32 <= 0x0D)
    || c == ' '
    || c as u32 == 0x85
    || c as u32 == 0xA0
    || c as u32 == 0x1680
    || (0x2000 <= c as u32 && c as u32 <= 0x200A)
    || c as u32 == 0x2028
    || c as u32 == 0x2029
    || c as u32 == 0x202F
    || c as u32 == 0x205F
    || c as u32 == 0x3000
}

/// Characters illegal in a filename: `< > : " / \ | ? *` and ASCII controls.
pub open spec fn is_unsafe_filename_char(c: char) -> bool {
    c == '<' || c == '>' || c == ':' || c == '"' || c == '/' || c == '\\'
    || c == '|' || c == '?' || c == '*' || c as u32 <= 0x1F
}

/// Executable test for [`is_id_char`].
pub fn id_char(c: char) -> (r: bool)
    ensures
        r == is_id_char(c),
{
    let u = c as u32;
    ('a' as u32 <= u && u <= 'z' as u32)
    || ('A' as u32 <= u && u <= 'Z' as u32)
    || ('0' as u32 <= u && u <= '9' as u32)
    || c == '_'
    || c == '-'
}

/// Executable test for [`is_ws`].
pub fn ws_char(c: char) -> (r: bool)
    ensures
        r == is_ws(c),
{
    let u = c as u32;
    (0x09 <= u && u <= 0x0D)
    || c == ' '
    || u == 0x85
    || u == 0xA0
    || u == 0x1680
    || (0x2000 <= u && u <= 0x200A)
    || u == 0x2028
    || u == 0x2029
    || u == 0x202F
    || u == 0x205F
    || u == 0x3000
}

/// Executable test for [`is_unsafe_filename_char`].
pub fn unsafe_filename_char(c: char) -> (r: bool)
    ensures
        r == is_unsafe_filename_char(c),
{
    c == '<' || c == '>' || c == ':' || c == '"' || c == '/' || c == '\\'
    || c == '|' || c == '?' || c == '*' || (c as u32) <= 0x1F
}

// ── String/Vec<char> conversion ──

/// The characters of `s`, in order.
pub fn chars_of(s: &str) -> (r: Vec<char>)
    ensures
        r@ == s@,
{
    let n = s.unicode_len();
    let mut out: Vec<char> = Vec::new();
    let mut i: usize = 0;
    while i < n
        invariant
            i <= n,
            n == s@.len(),
            out@ == s@.take(i as int),
        decreases n - i,
    {
        out.push(s.get_char(i));
        proof {
            assert(out@ =~= s@.take(i + 1 as int));
        }
        i = i + 1;
    }
    proof {
        assert(s@.take(n as int) =~= s@);
    }
    out
}

/// Relies on `String: FromIterator<char>` (`Iterator::collect`): the returned
/// string holds exactly the given characters, in order.
#[verifier::external_body]
pub fn string_of(v: &Vec<char>) -> (r: String)
    ensures
        r@ == v@,
{
    v.iter().collect()
}

/// Append the characters of `s` to `out`.
pub fn push_str(out: &mut Vec<char>, s: &str)
    ensures
        final(out)@ == old(out)@ + s@,
{
    let ghost base = out@;
    let n = s.unicode_len();
    let mut i: usize = 0;
    while i < n
        invariant
            i <= n,
            n == s@.len(),
            out@ == base + s@.take(i as int),
        decreases n - i,
    {
        out.push(s.get_char(i));
        proof {
            assert(base + s@.take(i + 1 as int) =~= (base + s@.take(i as int)).push(s@[i as int]));
        }
        i = i + 1;
    }
    proof {
        assert(base + s@.take(n as int) =~= base + s@);
    }
}

/// Append the characters of `v` to `out`.
pub fn push_chars(out: &mut Vec<char>, v: &Vec<char>)
    ensures
        final(out)@ == old(out)@ + v@,
{
    let ghost base = out@;
    let mut i: usize = 0;
    while i < v.len()
        invariant
            i <= v@.len(),
            out@ == base + v@.take(i as int),
        decreases v@.len() - i,
    {
        out.push(v[i]);
        proof {
            assert(base + v@.take(i + 1 as int) =~= (base + v@.take(i as int)).push(v@[i as int]));
        }
        i = i + 1;
    }
    proof {
        assert(base + v@.take(v@.len() as int) =~= base + v@);
    }
}

/// A copy of `v[from..to]`.
pub fn copy_range(v: &Vec<char>, from: usize, to: usize) -> (r: Vec<char>)
    requires
        from <= to <= v@.len(),
    ensures
        r@ == v@.subrange(from as int, to as int),
{
    let mut out: Vec<char> = Vec::new();
    let mut i: usize = from;
    while i < to
        invariant
            from <= i <= to <= v@.len(),
            out@ == v@.subrange(from as int, i as int),
        decreases to - i,
    {
        out.push(v[i]);
        proof {
            assert(out@ =~= v@.subrange(from as int, i + 1 as int));
        }
        i = i + 1;
    }
    out
}

// ── Trimming ──

/// `s` with trailing white space removed.
pub open spec fn trim_end_seq(s: Seq<char>) -> Seq<char>
    decreases s.len(),
{
    if s.len() > 0 && is_ws(s.last()) {
        trim_end_seq(s.drop_last())
    } else {
        s
    }
}

/// `s` with leading white space removed.
pub open spec fn trim_start_seq(s: Seq<char>) -> Seq<char>
    decreases s.len(),
{
    if s.len() > 0 && is_ws(s[0]) {
        trim_start_seq(s.skip(1))
    } else {
        s
    }
}

/// `s` with white space removed at both ends, as `str::trim` leaves it.
pub open spec fn trim_seq(s: Seq<char>) -> Seq<char> {
    trim_start_seq(trim_end_seq(s))
}

proof fn lemma_trim_end_take(s: Seq<char>, j: int)
    requires
        0 <= j <= s.len(),
        forall|k: int| j <= k < s.len() ==> is_ws(s[k]),
        j > 0 ==> !is_ws(s[j - 1]),
    ensures
        trim_end_seq(s) == s.take(j),
    decreases s.len(),
{
    if j == s.len() {
        if s.len() > 0 {
            assert(!is_ws(s.last()));
        }
        assert(s.take(j) =~= s);
    } else {
        assert(is_ws(s.last()));
        lemma_trim_end_take(s.drop_last(), j);
        assert(s.drop_last().take(j) =~= s.take(j));
    }
}

proof fn lemma_trim_start_skip(s: Seq<char>, b: int)
    requires
        0 <= b <= s.len(),
        forall|k: int| 0 <= k < b ==> is_ws(s[k]),
        b < s.len() ==> !is_ws(s[b]),
    ensures
        trim_start_seq(s) == s.skip(b),
    decreases s.len(),
{
    if b == 0 {
        assert(s.skip(0) =~= s);
    } else {
        assert(is_ws(s[0]));
        lemma_trim_start_skip(s.skip(1), b - 1);
        assert(s.skip(1).skip(b - 1) =~= s.skip(b));
    }
}

/// A copy of `v` with white space removed at both ends.
pub fn trim_of(v: &Vec<char>) -> (r: Vec<char>)
    ensures
        r@ == trim_seq(v@),
{
    let mut e: usize = v.len();
    while e > 0 && ws_char(v[e - 1])
        invariant
            e <= v@.len(),
            forall|k: int| e <= k < v@.len() ==> is_ws(v@[k]),
        decreases e,
    {
        e = e - 1;
    }
    proof {
        lemma_trim_end_take(v@, e as int);
    }
    let mut b: usize = 0;
    while b < e && ws_char(v[b])
        invariant
            b <= e <= v@.len(),
            forall|k: int| 0 <= k < b ==> is_ws(v@[k]),
        decreases e - b,
    {
        b = b + 1;
    }
    proof {
        lemma_trim_start_skip(v@.take(e as int), b as int);
        assert(v@.take(e as int).skip(b as int) =~= v@.subrange(b as int, e as int));
    }
    copy_range(v, b, e)
}

/// A copy of `v` with trailing white space removed.
pub fn trim_end_of(v: &Vec<char>) -> (r: Vec<char>)
    ensures
        r@ == trim_end_seq(v@),
{
    let mut e: usize = v.len();
    while e > 0 && ws_char(v[e - 1])
        invariant
            e <= v@.len(),
            forall|k: int| e <= k < v@.len() ==> is_ws(v@[k]),
        decreases e,
    {
        e = e - 1;
    }
    proof {
        lemma_trim_end_take(v@, e as int);
        assert(v@.subrange(0, e as int) =~= v@.take(e as int));
    }
    copy_range(v, 0, e)
}

// ── Identifier sanitisation ──

/// The subsequence of `s` made of its identifier characters, in order.
pub open spec fn keep_id_chars(s: Seq<char>) -> Seq<char>
    decreases s.len(),
{
    if s.len() == 0 {
        Seq::empty()
    } else if is_id_char(s.last()) {
        keep_id_chars(s.drop_last()).push(s.last())
    } else {
        keep_id_chars(s.drop_last())
    }
}

/// Keep only ASCII letters, digits, `_` and `-`, preserving relative order.
/// May produce an empty vector.
pub fn sanitize_id_chars(s: &Vec<char>) -> (r: Vec<char>)
    ensures
        r@ == keep_id_chars(s@),
{
    let mut out: Vec<char> = Vec::new();
    let mut i: usize = 0;
    while i < s.len()
        invariant
            i <= s.len(),
            out@ == keep_id_chars(s@.take(i as int)),
        decreases s.len() - i,
    {
        let c = s[i];
        proof {
            assert(s@.take(i + 1 as int).drop_last() =~= s@.take(i as int));
            assert(s@.take(i + 1 as int).last() == s@[i as int]);
        }
        if id_char(c) {
            out.push(c);
        }
        i = i + 1;
    }
    proof {
        assert(s@.take(s@.len() as int) =~= s@);
    }
    out
}

/// Keep only ASCII letters, digits, `_` and `-` of a note identifier,
/// preserving relative order. May produce an empty string.
pub fn sanitize_note_id(note_id: &str) -> (r: String)
    ensures
        r@ == keep_id_chars(note_id@),
{
    let cs = chars_of(note_id);
    let out = sanitize_id_chars(&cs);
    string_of(&out)
}

// ── Line-ending conversion ──

/// `s` with every `\r\n` pair contracted to `\n`, leftmost first.
pub open spec fn normalize_lf(s: Seq<char>) -> Seq<char>
    decreases s.len(),
{
    if s.len() == 0 {
        Seq::empty()
    } else if s.len() >= 2 && s[0] == '\r' && s[1] == '\n' {
        seq!['\n'] + normalize_lf(s.skip(2))
    } else {
        seq![s[0]] + normalize_lf(s.skip(1))
    }
}

/// `s` with every `\n` expanded to `\r\n`.
pub open spec fn expand_crlf(s: Seq<char>) -> Seq<char>
    decreases s.len(),
{
    if s.len() == 0 {
        Seq::empty()
    } else if s[0] == '\n' {
        seq!['\r', '\n'] + expand_crlf(s.skip(1))
    } else {
        seq![s[0]] + expand_crlf(s.skip(1))
    }
}

/// The text with all line endings normalised to `\n`, then expanded to `\r\n`.
pub open spec fn to_crlf_spec(s: Seq<char>) -> Seq<char> {
    expand_crlf(normalize_lf(s))
}

pub fn normalize_lf_chars(s: &Vec<char>) -> (r: Vec<char>)
    ensures
        r@ == normalize_lf(s@),
{
    let mut out: Vec<char> = Vec::new();
    let mut i: usize = 0;
    proof {
        assert(s@.skip(0) =~= s@);
        assert(out@ + normalize_lf(s@) =~= normalize_lf(s@));
    }
    while i < s.len()
        invariant
            i <= s.len(),
            out@ + normalize_lf(s@.skip(i as int)) == normalize_lf(s@),
        decreases s.len() - i,
    {
        let ghost pre = out@;
        if s[i] == '\r' && i + 1 < s.len() && s[i + 1] == '\n' {
            out.push('\n');
            proof {
                assert(s@.skip(i as int).skip(2) =~= s@.skip(i + 2 as int));
                assert(pre + normalize_lf(s@.skip(i as int)) == normalize_lf(s@));
                assert(out@ + normalize_lf(s@.skip(i + 2 as int))
                    =~= pre + normalize_lf(s@.skip(i as int)));
            }
            i = i + 2;
        } else {
            out.push(s[i]);
            proof {
                assert(s@.skip(i as int).skip(1) =~= s@.skip(i + 1 as int));
                assert(out@ + normalize_lf(s@.skip(i + 1 as int))
                    =~= pre + normalize_lf(s@.skip(i as int)));
            }
            i = i + 1;
        }
    }
    proof {
        assert(s@.skip(s@.len() as int) =~= Seq::<char>::empty());
        assert(out@ + normalize_lf(Seq::<char>::empty()) =~= out@);
    }
    out
}

pub fn expand_crlf_chars(s: &Vec<char>) -> (r: Vec<char>)
    ensures
        r@ == expand_crlf(s@),
{
    let mut out: Vec<char> = Vec::new();
    let mut i: usize = 0;
    proof {
        assert(s@.skip(0) =~= s@);
        assert(out@ + expand_crlf(s@) =~= expand_crlf(s@));
    }
    while i < s.len()
        invariant
            i <= s.len(),
            out@ + expand_crlf(s@.skip(i as int)) == expand_crlf(s@),
        decreases s.len() - i,
    {
        let ghost pre = out@;
        if s[i] == '\n' {
            out.push('\r');
            out.push('\n');
        } else {
            out.push(s[i]);
        }
        proof {
            assert(s@.skip(i as int).skip(1) =~= s@.skip(i + 1 as int));
            assert(out@ + expand_crlf(s@.skip(i + 1 as int))
                =~= pre + expand_crlf(s@.skip(i as int)));
        }
        i = i + 1;
    }
    proof {
        assert(s@.skip(s@.len() as int) =~= Seq::<char>::empty());
        assert(out@ + expand_crlf(Seq::<char>::empty()) =~= out@);
    }
    out
}

/// Normalise all line endings to `\n`, then expand each to `\r\n`, the form
/// note files use on disk.
pub fn to_windows_crlf(text: &str) -> (r: String)
    ensures
        r@ == to_crlf_spec(text@),
{
    let cs = chars_of(text);
    let lf = normalize_lf_chars(&cs);
    let out = expand_crlf_chars(&lf);
    string_of(&out)
}

proof fn lemma_norm_expand(y: Seq<char>)
    ensures
        normalize_lf(expand_crlf(y)) == y,
    decreases y.len(),
{
    if y.len() > 0 {
        lemma_norm_expand(y.skip(1));
        let e = expand_crlf(y);
        if y[0] == '\n' {
            assert(e == seq!['\r', '\n'] + expand_crlf(y.skip(1)));
            assert(e.len() >= 2 && e[0] == '\r' && e[1] == '\n');
            assert(e.skip(2) =~= expand_crlf(y.skip(1)));
            assert(seq!['\n'] + normalize_lf(expand_crlf(y.skip(1))) =~= y);
        } else {
            assert(e == seq![y[0]] + expand_crlf(y.skip(1)));
            assert(e[0] == y[0]);
            if y[0] == '\r' && e.len() >= 2 && e[1] == '\n' {
                // The expansion of the rest never starts with a bare newline:
                // a leading newline in the rest expands to a carriage return
                // first.
                assert(expand_crlf(y.skip(1))[0] == e[1]);
                if y.skip(1).len() > 0 {
                    if y.skip(1)[0] == '\n' {
                        assert(expand_crlf(y.skip(1))[0] == '\r');
                    } else {
                        assert(expand_crlf(y.skip(1))[0] == y.skip(1)[0]);
                    }
                }
                assert(false);
            }
            assert(e.skip(1) =~= expand_crlf(y.skip(1)));
            assert(seq![y[0]] + normalize_lf(expand_crlf(y.skip(1))) =~= y);
        }
    }
}

/// Converting line endings twice yields the same text as converting once.
pub proof fn lemma_to_crlf_idempotent(s: Seq<char>)
    ensures
        to_crlf_spec(to_crlf_spec(s)) == to_crlf_spec(s),
{
    lemma_norm_expand(normalize_lf(s));
}

// ── Separator normalisation ──

/// `s` with every backslash replaced by a forward slash.
pub open spec fn posix_seq(s: Seq<char>) -> Seq<char> {
    s.map_values(|c: char| if c == '\\' { '/' } else { c })
}

/// Replace every backslash with a forward slash.
pub fn to_posix_chars(s: &Vec<char>) -> (r: Vec<char>)
    ensures
        r@ == posix_seq(s@),
{
    let mut out: Vec<char> = Vec::new();
    let mut i: usize = 0;
    while i < s.len()
        invariant
            i <= s.len(),
            out@.len() == i,
            forall|k: int| 0 <= k < i ==> out@[k] == (if s@[k] == '\\' { '/' } else { s@[k] }),
        decreases s.len() - i,
    {
        if s[i] == '\\' {
            out.push('/');
        } else {
            out.push(s[i]);
        }
        i = i + 1;
    }
    proof {
        assert(out@ =~= posix_seq(s@));
    }
    out
}

// ── Splitting and joining ──

/// The parts of `s` cut at every occurrence of `sep`, with `cur` the part
/// accumulated so far; `split_seq` is the entry point.
pub open spec fn split_acc(s: Seq<char>, sep: char, cur: Seq<char>) -> Seq<Seq<char>>
    decreases s.len(),
{
    if s.len() == 0 {
        seq![cur]
    } else if s[0] == sep {
        seq![cur] + split_acc(s.skip(1), sep, Seq::empty())
    } else {
        split_acc(s.skip(1), sep, cur.push(s[0]))
    }
}

/// The parts of `s` separated by `sep`, as `str::split` yields them: splitting
/// an empty sequence gives one empty part, and a trailing separator gives a
/// trailing empty part.
pub open spec fn split_seq(s: Seq<char>, sep: char) -> Seq<Seq<char>> {
    split_acc(s, sep, Seq::empty())
}

/// Split `s` at every occurrence of `sep`.
pub fn split_chars(s: &Vec<char>, sep: char) -> (r: Vec<Vec<char>>)
    ensures
        r@.map_values(|p: Vec<char>| p@) == split_seq(s@, sep),
{
    let mut done: Vec<Vec<char>> = Vec::new();
    let mut cur: Vec<char> = Vec::new();
    let mut i: usize = 0;
    proof {
        assert(s@.skip(0) =~= s@);
        assert(done@.map_values(|p: Vec<char>| p@) =~= Seq::<Seq<char>>::empty());
        assert(done@.map_values(|p: Vec<char>| p@) + split_acc(s@, sep, cur@)
            =~= split_acc(s@, sep, cur@));
    }
    while i < s.len()
        invariant
            i <= s.len(),
            split_seq(s@, sep) == done@.map_values(|p: Vec<char>| p@)
                + split_acc(s@.skip(i as int), sep, cur@),
        decreases s.len() - i,
    {
        let ghost pre_done = done@.map_values(|p: Vec<char>| p@);
        let ghost pre_cur = cur@;
        proof {
            assert(s@.skip(i as int).skip(1) =~= s@.skip(i + 1 as int));
        }
        if s[i] == sep {
            done.push(cur);
            cur = Vec::new();
            proof {
                assert(done@.map_values(|p: Vec<char>| p@)
                    =~= pre_done.push(pre_cur));
                assert(pre_done.push(pre_cur) + split_acc(s@.skip(i + 1 as int), sep, Seq::empty())
                    =~= pre_done + (seq![pre_cur] + split_acc(s@.skip(i + 1 as int), sep, Seq::empty())));
            }
        } else {
            cur.push(s[i]);
        }
        i = i + 1;
    }
    let ghost pre_done = done@.map_values(|p: Vec<char>| p@);
    let ghost pre_cur = cur@;
    done.push(cur);
    proof {
        assert(s@.skip(s@.len() as int) =~= Seq::<char>::empty());
        assert(done@.map_values(|p: Vec<char>| p@) =~= pre_done.push(pre_cur));
        assert(pre_done.push(pre_cur) =~= pre_done + seq![pre_cur]);
    }
    done
}

/// The parts joined with `sep` between consecutive parts.
pub open spec fn join_seq(parts: Seq<Seq<char>>, sep: char) -> Seq<char>
    decreases parts.len(),
{
    if parts.len() == 0 {
        Seq::empty()
    } else if parts.len() == 1 {
        parts[0]
    } else {
        parts[0] + seq![sep] + join_seq(parts.skip(1), sep)
    }
}

/// Join the parts with `sep` between consecutive parts.
pub fn join_chars(parts: &Vec<Vec<char>>, sep: char) -> (r: Vec<char>)
    ensures
        r@ == join_seq(parts@.map_values(|p: Vec<char>| p@), sep),
{
    let ghost pv = parts@.map_values(|p: Vec<char>| p@);
    let mut out: Vec<char> = Vec::new();
    let mut i: usize = 0;
    proof {
        assert(pv.skip(0) =~= pv);
        assert(out@ + join_seq(pv, sep) =~= join_seq(pv, sep));
    }
    while i < parts.len()
        invariant
            i <= parts.len(),
            pv == parts@.map_values(|p: Vec<char>| p@),
            out@ + join_seq(pv.skip(i as int), sep) == join_seq(pv, sep),
        decreases parts.len() - i,
    {
        let ghost pre = out@;
        let part = &parts[i];
        let mut j: usize = 0;
        proof {
            assert(out@ =~= pre + part@.take(0));
        }
        while j < part.len()
            invariant
                j <= part.len(),
                i < pv.len(),
                part@ == pv[i as int],
                out@ == pre + part@.take(j as int),
            decreases part.len() - j,
        {
            out.push(part[j]);
            proof {
                assert(pre + part@.take(j + 1 as int) =~= (pre + part@.take(j as int)).push(part@[j as int]));
            }
            j = j + 1;
        }
        proof {
            assert(part@.take(part@.len() as int) =~= part@);
        }
        if i + 1 < parts.len() {
            out.push(sep);
            proof {
                assert(pv.skip(i as int)[0] == pv[i as int]);
                assert(pv.skip(i as int).skip(1) =~= pv.skip(i + 1 as int));
                assert(out@ =~= pre + (pv[i as int] + seq![sep]));
                assert(out@ + join_seq(pv.skip(i + 1 as int), sep)
                    =~= pre + join_seq(pv.skip(i as int), sep));
            }
        } else {
            proof {
                assert(pv.skip(i as int).len() == 1);
                assert(pv.skip(i as int)[0] == pv[i as int]);
                assert(out@ =~= pre + join_seq(pv.skip(i as int), sep));
                assert(pv.skip(i + 1 as int).len() == 0);
                assert(out@ + join_seq(pv.skip(i + 1 as int), sep) =~= out@);
            }
        }
        i = i + 1;
    }
    proof {
        assert(pv.skip(pv.len() as int) =~= Seq::<Seq<char>>::empty());
        assert(out@ + join_seq(Seq::<Seq<char>>::empty(), sep) =~= out@);
    }
    out
}

// ── Folder-path sanitisation ──

/// Each segment sanitised to its identifier characters, empty segments
/// dropped.
pub open spec fn clean_segments(parts: Seq<Seq<char>>) -> Seq<Seq<char>>
    decreases parts.len(),
{
    if parts.len() == 0 {
        Seq::empty()
    } else {
        let cleaned = keep_id_chars(parts[0]);
        if cleaned.len() == 0 {
            clean_segments(parts.skip(1))
        } else {
            seq![cleaned] + clean_segments(parts.skip(1))
        }
    }
}

/// The normalised folder path of `s`: backslashes unified to `/`, each
/// segment reduced to its identifier characters, empty segments dropped,
/// segments rejoined with `/`.
pub open spec fn folder_norm(s: Seq<char>) -> Seq<char> {
    join_seq(clean_segments(split_seq(posix_seq(s), '/')), '/')
}

/// What `sanitize_folder_path` returns: the normalised path, with an absent,
/// empty, all-illegal or literal-`inbox` path collapsed to the empty string
/// (the root folder).
pub open spec fn sanitize_folder_spec(folder_path: Option<Seq<char>>) -> Seq<char> {
    match folder_path {
        Option::None => Seq::empty(),
        Option::Some(s) => {
            if s.len() == 0 {
                Seq::empty()
            } else {
                let n = folder_norm(s);
                if n.len() == 0 || n == "inbox"@ {
                    Seq::empty()
                } else {
                    n
                }
            }
        },
    }
}

/// Split on both slash styles, keep only identifier characters in each
/// segment, drop empty segments, rejoin with `/`; an empty or `inbox` result
/// collapses to the empty string, meaning the root folder.
pub fn sanitize_folder_path(folder_path: Option<&str>) -> (r: String)
    ensures
        r@ == sanitize_folder_spec(match folder_path {
            Option::None => Option::None,
            Option::Some(s) => Option::Some(s@),
        }),
{
    let s = match folder_path {
        None => {
            return String::new();
        },
        Some(s) => s,
    };
    let cs = chars_of(s);
    if cs.len() == 0 {
        return String::new();
    }
    let posix = to_posix_chars(&cs);
    let parts = split_chars(&posix, '/');
    let mut kept: Vec<Vec<char>> = Vec::new();
    let ghost pv = parts@.map_values(|p: Vec<char>| p@);
    let mut i: usize = 0;
    proof {
        assert(pv.skip(0) =~= pv);
        assert(kept@.map_values(|p: Vec<char>| p@) =~= Seq::<Seq<char>>::empty());
        assert(kept@.map_values(|p: Vec<char>| p@) + clean_segments(pv)
            =~= clean_segments(pv));
    }
    while i < parts.len()
        invariant
            i <= parts.len(),
            pv == parts@.map_values(|p: Vec<char>| p@),
            clean_segments(pv) == kept@.map_values(|p: Vec<char>| p@)
                + clean_segments(pv.skip(i as int)),
        decreases parts.len() - i,
    {
        let ghost pre = kept@.map_values(|p: Vec<char>| p@);
        proof {
            assert(pv.skip(i as int)[0] == pv[i as int]);
            assert(pv.skip(i as int).skip(1) =~= pv.skip(i + 1 as int));
        }
        let cleaned = sanitize_id_chars(&parts[i]);
        if cleaned.len() > 0 {
            kept.push(cleaned);
            proof {
                assert(kept@.map_values(|p: Vec<char>| p@)
                    =~= pre.push(keep_id_chars(pv[i as int])));
                assert(pre.push(keep_id_chars(pv[i as int]))
                        + clean_segments(pv.skip(i + 1 as int))
                    =~= pre + (seq![keep_id_chars(pv[i as int])]
                        + clean_segments(pv.skip(i + 1 as int))));
            }
        }
        i = i + 1;
    }
    proof {
        assert(pv.skip(pv.len() as int) =~= Seq::<Seq<char>>::empty());
        assert(kept@.map_values(|p: Vec<char>| p@) + clean_segments(pv.skip(pv.len() as int))
            =~= kept@.map_values(|p: Vec<char>| p@));
    }
    let joined = join_chars(&kept, '/');
    let out = string_of(&joined);
    if out.as_str().unicode_len() == 0 {
        return String::new();
    }
    let inbox: &str = "inbox";
    if eq_chars_str(&joined, inbox) {
        proof {
            reveal_strlit("inbox");
        }
        return String::new();
    }
    out
}

/// Whether the characters of `v` spell exactly `s`.
pub fn eq_chars_str(v: &Vec<char>, s: &str) -> (r: bool)
    ensures
        r == (v@ == s@),
{
    let n = s.unicode_len();
    if v.len() != n {
        proof {
            assert(v@.len() != s@.len());
        }
        return false;
    }
    let mut i: usize = 0;
    while i < n
        invariant
            i <= n,
            n == s@.len(),
            v@.len() == n,
            forall|k: int| 0 <= k < i ==> v@[k] == s@[k],
        decreases n - i,
    {
        if v[i] != s.get_char(i) {
            return false;
        }
        i = i + 1;
    }
    proof {
        assert(v@ =~= s@);
    }
    true
}

// ── Slug generation ──

/// White-space runs collapsed, each maximal run replaced by one hyphen;
/// `prev_ws` says whether the character just before `s` was white space.
pub open spec fn collapse_ws(s: Seq<char>, prev_ws: bool) -> Seq<char>
    decreases s.len(),
{
    if s.len() == 0 {
        Seq::empty()
    } else if is_ws(s[0]) {
        (if prev_ws { Seq::<char>::empty() } else { seq!['-'] }) + collapse_ws(s.skip(1), true)
    } else {
        seq![s[0]] + collapse_ws(s.skip(1), false)
    }
}

/// The subsequence of `s` without filename-unsafe characters.
pub open spec fn drop_unsafe(s: Seq<char>) -> Seq<char>
    decreases s.len(),
{
    if s.len() == 0 {
        Seq::empty()
    } else if is_unsafe_filename_char(s.last()) {
        drop_unsafe(s.drop_last())
    } else {
        drop_unsafe(s.drop_last()).push(s.last())
    }
}

/// `s` with every trailing dot removed.
pub open spec fn strip_trailing_dots(s: Seq<char>) -> Seq<char>
    decreases s.len(),
{
    if s.len() > 0 && s.last() == '.' {
        strip_trailing_dots(s.drop_last())
    } else {
        s
    }
}

/// The first `n` elements of `s`, or all of `s` when it is shorter.
pub open spec fn take_upto(s: Seq<char>, n: int) -> Seq<char> {
    if s.len() <= n {
        s
    } else {
        s.take(n)
    }
}

/// The slug a title yields before the empty-slug fallback: trimmed, unsafe
/// characters stripped, white-space runs collapsed to single hyphens,
/// trailing dots stripped, cut to 80 characters.
pub open spec fn slug_core(title: Seq<char>) -> Seq<char> {
    take_upto(strip_trailing_dots(collapse_ws(drop_unsafe(trim_seq(title)), false)), 80)
}

/// What `slugify_title` returns.
pub open spec fn slug_spec(title: Seq<char>) -> Seq<char> {
    if slug_core(title).len() == 0 {
        "untitled"@
    } else {
        slug_core(title)
    }
}

fn drop_unsafe_chars(s: &Vec<char>) -> (r: Vec<char>)
    ensures
        r@ == drop_unsafe(s@),
{
    let mut out: Vec<char> = Vec::new();
    let mut i: usize = 0;
    while i < s.len()
        invariant
            i <= s.len(),
            out@ == drop_unsafe(s@.take(i as int)),
        decreases s.len() - i,
    {
        proof {
            assert(s@.take(i + 1 as int).drop_last() =~= s@.take(i as int));
            assert(s@.take(i + 1 as int).last() == s@[i as int]);
        }
        if !unsafe_filename_char(s[i]) {
            out.push(s[i]);
        }
        i = i + 1;
    }
    proof {
        assert(s@.take(s@.len() as int) =~= s@);
    }
    out
}

fn collapse_ws_chars(s: &Vec<char>) -> (r: Vec<char>)
    ensures
        r@ == collapse_ws(s@, false),
{
    let mut out: Vec<char> = Vec::new();
    let mut prev_ws = false;
    let mut i: usize = 0;
    proof {
        assert(s@.skip(0) =~= s@);
        assert(out@ + collapse_ws(s@, false) =~= collapse_ws(s@, false));
    }
    while i < s.len()
        invariant
            i <= s.len(),
            out@ + collapse_ws(s@.skip(i as int), prev_ws) == collapse_ws(s@, false),
        decreases s.len() - i,
    {
        let ghost pre = out@;
        let ghost pw = prev_ws;
        proof {
            assert(s@.skip(i as int).skip(1) =~= s@.skip(i + 1 as int));
        }
        if ws_char(s[i]) {
            if !prev_ws {
                out.push('-');
            }
            prev_ws = true;
            proof {
                assert(out@ + collapse_ws(s@.skip(i + 1 as int), true)
                    =~= pre + collapse_ws(s@.skip(i as int), pw));
            }
        } else {
            out.push(s[i]);
            prev_ws = false;
            proof {
                assert(out@ + collapse_ws(s@.skip(i + 1 as int), false)
                    =~= pre + collapse_ws(s@.skip(i as int), pw));
            }
        }
        i = i + 1;
    }
    proof {
        assert(s@.skip(s@.len() as int) =~= Seq::<char>::empty());
        assert(out@ + collapse_ws(Seq::<char>::empty(), prev_ws) =~= out@);
    }
    out
}

fn strip_dots_chars(s: &Vec<char>) -> (r: Vec<char>)
    ensures
        r@ == strip_trailing_dots(s@),
{
    let mut e: usize = s.len();
    proof {
        assert(s@.take(s@.len() as int) =~= s@);
    }
    while e > 0 && s[e - 1] == '.'
        invariant
            e <= s@.len(),
            strip_trailing_dots(s@) == strip_trailing_dots(s@.take(e as int)),
        decreases e,
    {
        proof {
            assert(s@.take(e as int).drop_last() =~= s@.take(e - 1 as int));
        }
        e = e - 1;
    }
    proof {
        if e > 0 {
            assert(s@.take(e as int).last() == s@[e - 1 as int]);
        }
        assert(strip_trailing_dots(s@.take(e as int)) == s@.take(e as int));
    }
    copy_range(s, 0, e)
}

/// Derive a filesystem-safe base name from a title: trim it, strip illegal
/// filename characters, collapse white-space runs to single hyphens, strip
/// trailing dots, cut to 80 characters; an empty result becomes `untitled`.
pub fn slugify_title(title: &str) -> (r: String)
    ensures
        r@ == slug_spec(title@),
{
    let cs = chars_of(title);
    let trimmed = trim_of(&cs);
    let safe = drop_unsafe_chars(&trimmed);
    let collapsed = collapse_ws_chars(&safe);
    let stripped = strip_dots_chars(&collapsed);
    let cut = if stripped.len() > 80 {
        copy_range(&stripped, 0, 80)
    } else {
        copy_range(&stripped, 0, stripped.len())
    };
    proof {
        assert(cut@ =~= take_upto(stripped@, 80));
    }
    if cut.len() == 0 {
        let out = String::from_str("untitled");
        return out;
    }
    string_of(&cut)
}

// ── HTML escaping ──

/// The escape of one character: `& < > " '` become entities, every other
/// character stands as itself.
pub open spec fn escape_char(c: char) -> Seq<char> {
    if c == '&' {
        seq!['&', 'a', 'm', 'p', ';']
    } else if c == '<' {
        seq!['&', 'l', 't', ';']
    } else if c == '>' {
        seq!['&', 'g', 't', ';']
    } else if c == '"' {
        seq!['&', 'q', 'u', 'o', 't', ';']
    } else if c == '\'' {
        seq!['&', '#', '3', '9', ';']
    } else {
        seq![c]
    }
}

/// The HTML escape of `s`: each character replaced by its escape.
pub open spec fn escape_seq(s: Seq<char>) -> Seq<char>
    decreases s.len(),
{
    if s.len() == 0 {
        Seq::empty()
    } else {
        escape_seq(s.drop_last()) + escape_char(s.last())
    }
}

/// Append the escape of `c` to `out`.
fn push_escape(out: &mut Vec<char>, c: char)
    ensures
        final(out)@ == old(out)@ + escape_char(c),
{
    let ghost pre = out@;
    if c == '&' {
        out.push('&');
        out.push('a');
        out.push('m');
        out.push('p');
        out.push(';');
    } else if c == '<' {
        out.push('&');
        out.push('l');
        out.push('t');
        out.push(';');
    } else if c == '>' {
        out.push('&');
        out.push('g');
        out.push('t');
        out.push(';');
    } else if c == '"' {
        out.push('&');
        out.push('q');
        out.push('u');
        out.push('o');
        out.push('t');
        out.push(';');
    } else if c == '\'' {
        out.push('&');
        out.push('#');
        out.push('3');
        out.push('9');
        out.push(';');
    } else {
        out.push(c);
    }
    proof {
        assert(out@ =~= pre + escape_char(c));
    }
}

/// Append the escape of every character of `s` to `out`.
pub fn push_escaped(out: &mut Vec<char>, s: &Vec<char>)
    ensures
        final(out)@ == old(out)@ + escape_seq(s@),
{
    let ghost base = out@;
    let mut i: usize = 0;
    while i < s.len()
        invariant
            i <= s.len(),
            out@ == base + escape_seq(s@.take(i as int)),
        decreases s.len() - i,
    {
        proof {
            assert(s@.take(i + 1 as int).drop_last() =~= s@.take(i as int));
            assert(s@.take(i + 1 as int).last() == s@[i as int]);
        }
        push_escape(out, s[i]);
        i = i + 1;
    }
    proof {
        assert(s@.take(s@.len() as int) =~= s@);
    }
}

/// Escape `& < > " '` for HTML, ampersand first so no entity is re-escaped.
pub fn escape_html(text: &str) -> (r: String)
    ensures
        r@ == escape_seq(text@),
{
    let cs = chars_of(text);
    let mut out: Vec<char> = Vec::new();
    push_escaped(&mut out, &cs);
    string_of(&out)
}

} // verus!
