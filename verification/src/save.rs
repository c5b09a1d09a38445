//! The auto-save planner: given the index, the caller's payload and a look at
//! the target directory, it fixes the sanitized identifier, the unique target
//! file name, the content to write, the old file to drop and the index to
//! persist — everything the save needs short of touching the disk — and the
//! assembly and ordering of loaded notes.

use vstd::prelude::*;
use vstd::string::*;

use crate::index::{EntryV, NoteIndex, NoteIndexEntry, lookup, upsert_spec};
use crate::markdown::{html_spec, markdown_to_html, markdown_to_plain_text, plain_spec,
    title_spec, derive_title};
use crate::text::{
    chars_of, copy_range, keep_id_chars, push_chars, push_str, sanitize_folder_spec,
    sanitize_folder_path, sanitize_note_id, slug_spec, slugify_title, string_of,
    take_upto, to_crlf_spec, to_windows_crlf, trim_of, trim_seq,
};

verus! {

// ── Relative-path helpers ──

/// The position of the last `/` in `p`, or `-1` when there is none.
pub open spec fn last_slash(p: Seq<char>) -> int
    decreases p.len(),
{
    if p.len() == 0 {
        -1
    } else if p.last() == '/' {
        p.len() - 1
    } else {
        last_slash(p.drop_last())
    }
}

/// The part of a relative path before its last `/`, or empty when it has
/// none: the folder a note lives in, with the root folder as the empty
/// string.
pub open spec fn rel_dirname(p: Seq<char>) -> Seq<char> {
    if last_slash(p) < 0 {
        Seq::empty()
    } else {
        p.take(last_slash(p))
    }
}

/// The part of a relative path after its last `/`: the file name.
pub open spec fn rel_basename(p: Seq<char>) -> Seq<char> {
    if last_slash(p) < 0 {
        p
    } else {
        p.skip(last_slash(p) + 1)
    }
}

/// A file name placed under a folder: the name alone at the root, else
/// `folder/name`.
pub open spec fn join_rel(folder: Seq<char>, name: Seq<char>) -> Seq<char> {
    if folder.len() == 0 {
        name
    } else {
        folder + seq!['/'] + name
    }
}

proof fn lemma_last_slash(p: Seq<char>)
    ensures
        -1 <= last_slash(p) < p.len(),
        last_slash(p) >= 0 ==> p[last_slash(p)] == '/',
        forall|k: int| last_slash(p) < k < p.len() ==> p[k] != '/',
    decreases p.len(),
{
    if p.len() > 0 && p.last() != '/' {
        lemma_last_slash(p.drop_last());
        assert forall|k: int| last_slash(p) < k < p.len() implies p[k] != '/' by {
            if k < p.len() - 1 {
                assert(p.drop_last()[k] == p[k]);
            }
        }
    }
}

/// The folder part and name part of a relative path.
pub fn split_rel_path(p: &Vec<char>) -> (r: (Vec<char>, Vec<char>))
    ensures
        r.0@ == rel_dirname(p@),
        r.1@ == rel_basename(p@),
{
    proof {
        lemma_last_slash(p@);
    }
    let mut k: usize = p.len();
    while k > 0 && p[k - 1] != '/'
        invariant
            k <= p@.len(),
            forall|m: int| k <= m < p@.len() ==> p@[m] != '/',
        decreases k,
    {
        k = k - 1;
    }
    if k == 0 {
        proof {
            assert(last_slash(p@) < 0) by {
                if last_slash(p@) >= 0 {
                    assert(p@[last_slash(p@)] == '/');
                }
            }
        }
        let name = copy_range(p, 0, p.len());
        proof {
            assert(name@ =~= p@);
        }
        (Vec::new(), name)
    } else {
        proof {
            assert(p@[k - 1] == '/');
            assert(last_slash(p@) == k - 1) by {
                if last_slash(p@) > k - 1 {
                    assert(p@[last_slash(p@)] != '/');
                }
                if last_slash(p@) < k - 1 {
                    assert(forall|m: int| last_slash(p@) < m < p@.len() ==> p@[m] != '/');
                }
            }
        }
        let dir = copy_range(p, 0, k - 1);
        let name = copy_range(p, k, p.len());
        proof {
            assert(dir@ =~= rel_dirname(p@));
            assert(name@ =~= rel_basename(p@));
        }
        (dir, name)
    }
}

// ── Candidate file names ──

/// The decimal digit of `n`.
pub open spec fn dec_digit(n: int) -> char {
    if n == 0 { '0' } else if n == 1 { '1' } else if n == 2 { '2' }
    else if n == 3 { '3' } else if n == 4 { '4' } else if n == 5 { '5' }
    else if n == 6 { '6' } else if n == 7 { '7' } else if n == 8 { '8' }
    else { '9' }
}

/// `n` written in decimal.
pub open spec fn decimal_of(n: int) -> Seq<char>
    decreases n
        when n >= 0
{
    if n < 10 {
        seq![dec_digit(n)]
    } else {
        decimal_of(n / 10) + seq![dec_digit(n % 10)]
    }
}

/// The value a decimal digit stands for.
pub open spec fn dec_digit_val(c: char) -> int {
    if c == '0' { 0 } else if c == '1' { 1 } else if c == '2' { 2 }
    else if c == '3' { 3 } else if c == '4' { 4 } else if c == '5' { 5 }
    else if c == '6' { 6 } else if c == '7' { 7 } else if c == '8' { 8 }
    else { 9 }
}

/// The value of a digit string.
pub open spec fn dec_val(s: Seq<char>) -> int
    decreases s.len(),
{
    if s.len() == 0 {
        0
    } else {
        dec_val(s.drop_last()) * 10 + dec_digit_val(s.last())
    }
}

proof fn lemma_decimal_val(n: int)
    requires
        n >= 0,
    ensures
        dec_val(decimal_of(n)) == n,
        decimal_of(n).len() >= 1,
    decreases n,
{
    if n < 10 {
        assert(seq![dec_digit(n)].drop_last() =~= Seq::<char>::empty());
        assert(dec_val(Seq::<char>::empty()) == 0);
        assert(seq![dec_digit(n)].last() == dec_digit(n));
        assert(dec_digit_val(dec_digit(n)) == n);
    } else {
        lemma_decimal_val(n / 10);
        let s = decimal_of(n / 10) + seq![dec_digit(n % 10)];
        assert(s.drop_last() =~= decimal_of(n / 10));
        assert(s.last() == dec_digit(n % 10));
        assert(dec_digit_val(dec_digit(n % 10)) == n % 10);
    }
}

/// The candidate file name a counter gives: the bare slug first, then
/// `slug-2.md`, `slug-3.md`, and so on.
pub open spec fn cand_name(base: Seq<char>, c: int) -> Seq<char> {
    if c == 1 {
        base + ".md"@
    } else {
        base + seq!['-'] + decimal_of(c) + ".md"@
    }
}

proof fn lemma_cand_name_injective(base: Seq<char>, c1: int, c2: int)
    requires
        1 <= c1,
        1 <= c2,
        c1 != c2,
    ensures
        cand_name(base, c1) != cand_name(base, c2),
{
    reveal_strlit(".md");
    if c1 == 1 || c2 == 1 {
        let c = if c1 == 1 { c2 } else { c1 };
        lemma_decimal_val(c);
        assert(cand_name(base, 1).len() == base.len() + 3);
        assert(cand_name(base, c).len() == base.len() + 4 + decimal_of(c).len());
    } else {
        lemma_decimal_val(c1);
        lemma_decimal_val(c2);
        if cand_name(base, c1) == cand_name(base, c2) {
            let n1 = cand_name(base, c1);
            let n2 = cand_name(base, c2);
            assert(n1.len() == base.len() + 1 + decimal_of(c1).len() + 3);
            assert(n2.len() == base.len() + 1 + decimal_of(c2).len() + 3);
            assert(decimal_of(c1).len() == decimal_of(c2).len());
            assert(decimal_of(c1) =~= n1.subrange(base.len() as int + 1, n1.len() as int - 3));
            assert(decimal_of(c2) =~= n2.subrange(base.len() as int + 1, n2.len() as int - 3));
            assert(dec_val(decimal_of(c1)) == dec_val(decimal_of(c2)));
            assert(false);
        }
    }
}

/// A candidate is acceptable when no such file exists, or when it is exactly
/// the note's own current file.
pub open spec fn cand_ok(
    existing: Seq<Seq<char>>,
    except: Option<Seq<char>>,
    name: Seq<char>,
) -> bool {
    !existing.contains(name) || except == Option::Some(name)
}

/// The first acceptable counter at or after `c`, probing at most `fuel`
/// candidates.
pub open spec fn first_ok_from(
    existing: Seq<Seq<char>>,
    base: Seq<char>,
    except: Option<Seq<char>>,
    c: int,
    fuel: nat,
) -> int
    decreases fuel,
{
    if fuel == 0 {
        c
    } else if cand_ok(existing, except, cand_name(base, c)) {
        c
    } else {
        first_ok_from(existing, base, except, c + 1, (fuel - 1) as nat)
    }
}

/// The counter the unique-name search settles on: one more candidate than
/// there are existing files always suffices.
pub open spec fn unique_counter(
    existing: Seq<Seq<char>>,
    base: Seq<char>,
    except: Option<Seq<char>>,
) -> int {
    first_ok_from(existing, base, except, 1, (existing.len() + 1) as nat)
}

/// The file name the unique-name search settles on.
pub open spec fn unique_name(
    existing: Seq<Seq<char>>,
    base: Seq<char>,
    except: Option<Seq<char>>,
) -> Seq<char> {
    cand_name(base, unique_counter(existing, base, except))
}

spec fn cand_set(base: Seq<char>, m: int) -> Set<Seq<char>>
    decreases m
        when m >= 0
{
    if m <= 0 {
        Set::empty()
    } else {
        cand_set(base, m - 1).insert(cand_name(base, m))
    }
}

proof fn lemma_cand_set(base: Seq<char>, m: int)
    requires
        m >= 0,
    ensures
        cand_set(base, m).finite(),
        cand_set(base, m).len() == m,
        forall|c: int| 1 <= c <= m ==> cand_set(base, m).contains(#[trigger] cand_name(base, c)),
        forall|x: Seq<char>| cand_set(base, m).contains(x)
            ==> exists|c: int| 1 <= c <= m && x == cand_name(base, c),
    decreases m,
{
    if m > 0 {
        lemma_cand_set(base, m - 1);
        assert(!cand_set(base, m - 1).contains(cand_name(base, m))) by {
            if cand_set(base, m - 1).contains(cand_name(base, m)) {
                let c = choose|c: int| 1 <= c <= m - 1 && cand_name(base, m) == cand_name(base, c);
                lemma_cand_name_injective(base, c, m);
            }
        }
    }
}

proof fn lemma_to_set_len<A>(s: Seq<A>)
    ensures
        s.to_set().finite(),
        s.to_set().len() <= s.len(),
    decreases s.len(),
{
    if s.len() == 0 {
        assert(s.to_set() =~= Set::<A>::empty());
    } else {
        lemma_to_set_len(s.drop_last());
        assert(s.to_set() =~= s.drop_last().to_set().insert(s.last())) by {
            assert forall|x: A| s.to_set().contains(x)
                implies s.drop_last().to_set().insert(s.last()).contains(x) by {
                let k = choose|k: int| 0 <= k < s.len() && s[k] == x;
                if k < s.len() - 1 {
                    assert(s.drop_last()[k] == x);
                    assert(s.drop_last().contains(x));
                }
            }
            assert forall|x: A| s.drop_last().to_set().insert(s.last()).contains(x)
                implies s.to_set().contains(x) by {
                if s.drop_last().to_set().contains(x) {
                    let k = choose|k: int| 0 <= k < s.drop_last().len() && s.drop_last()[k] == x;
                    assert(s[k] == x);
                } else {
                    assert(s[s.len() - 1] == x);
                }
            }
        }
    }
}

proof fn lemma_pigeonhole(
    existing: Seq<Seq<char>>,
    base: Seq<char>,
    except: Option<Seq<char>>,
    m: int,
)
    requires
        m == existing.len() + 1,
    ensures
        exists|c: int| 1 <= c <= m && cand_ok(existing, except, #[trigger] cand_name(base, c)),
{
    if forall|c: int| 1 <= c <= m ==> !cand_ok(existing, except, #[trigger] cand_name(base, c)) {
        lemma_cand_set(base, m);
        lemma_to_set_len(existing);
        assert(cand_set(base, m).subset_of(existing.to_set())) by {
            assert forall|x: Seq<char>| cand_set(base, m).contains(x)
                implies existing.to_set().contains(x) by {
                let c = choose|c: int| 1 <= c <= m && x == cand_name(base, c);
                assert(!cand_ok(existing, except, cand_name(base, c)));
                assert(existing.contains(x));
            }
        }
        vstd::set_lib::lemma_len_subset(cand_set(base, m), existing.to_set());
        assert(false);
    }
}

fn dec_chars(n: usize) -> (r: Vec<char>)
    ensures
        r@ == decimal_of(n as int),
    decreases n,
{
    let d = n % 10;
    let digit = if d == 0 { '0' } else if d == 1 { '1' } else if d == 2 { '2' }
        else if d == 3 { '3' } else if d == 4 { '4' } else if d == 5 { '5' }
        else if d == 6 { '6' } else if d == 7 { '7' } else if d == 8 { '8' }
        else { '9' };
    proof {
        assert(digit == dec_digit(n as int % 10));
    }
    if n < 10 {
        let mut v: Vec<char> = Vec::new();
        v.push(digit);
        proof {
            assert(v@ =~= seq![dec_digit(n as int)]);
        }
        v
    } else {
        let mut v = dec_chars(n / 10);
        v.push(digit);
        proof {
            assert(v@ =~= decimal_of(n as int / 10) + seq![dec_digit(n as int % 10)]);
        }
        v
    }
}

fn cand_name_of(base: &Vec<char>, c: usize) -> (r: Vec<char>)
    requires
        c >= 1,
    ensures
        r@ == cand_name(base@, c as int),
{
    let mut out: Vec<char> = Vec::new();
    push_chars(&mut out, base);
    if c != 1 {
        out.push('-');
        let digits = dec_chars(c);
        push_chars(&mut out, &digits);
        proof {
            assert(out@ =~= base@ + seq!['-'] + decimal_of(c as int));
        }
    }
    push_str(&mut out, ".md");
    proof {
        if c == 1 {
            assert(out@ =~= base@ + ".md"@);
        } else {
            assert(out@ =~= base@ + seq!['-'] + decimal_of(c as int) + ".md"@);
        }
    }
    out
}

/// Whether `name` equals one of `existing`.
fn existing_contains(existing: &Vec<String>, name: &Vec<char>) -> (r: bool)
    ensures
        r == existing@.map_values(|s: String| s@).contains(name@),
{
    let ghost ev = existing@.map_values(|s: String| s@);
    let mut j: usize = 0;
    while j < existing.len()
        invariant
            j <= existing@.len(),
            ev == existing@.map_values(|s: String| s@),
            ev.len() == existing@.len(),
            forall|m: int| 0 <= m < j ==> ev[m] != name@,
        decreases existing@.len() - j,
    {
        if crate::text::eq_chars_str(name, existing[j].as_str()) {
            proof {
                assert(ev[j as int] == name@);
            }
            return true;
        }
        j = j + 1;
    }
    proof {
        assert(!ev.contains(name@));
    }
    false
}

/// Pick a file name for `base_name` that is free among `existing` (the names
/// present in the target directory), or that is exactly `except` (the note's
/// own current name, which it may keep): the bare slug first, then `-2`,
/// `-3`, … until one fits.
pub fn ensure_unique_file_path(
    existing: &Vec<String>,
    base_name: &str,
    except: Option<&String>,
) -> (r: String)
    requires
        existing@.len() + 2 <= usize::MAX,
    ensures
        r@ == unique_name(
            existing@.map_values(|s: String| s@),
            base_name@,
            match except {
                Option::Some(e) => Option::Some(e@),
                Option::None => Option::None,
            },
        ),
        cand_ok(
            existing@.map_values(|s: String| s@),
            match except {
                Option::Some(e) => Option::Some(e@),
                Option::None => Option::None,
            },
            r@,
        ),
        exists|c: int| 1 <= c && r@ == cand_name(base_name@, c),
{
    let ghost ev = existing@.map_values(|s: String| s@);
    let ghost ex = match except {
        Option::Some(e) => Option::<Seq<char>>::Some(e@),
        Option::None => Option::<Seq<char>>::None,
    };
    let base = chars_of(base_name);
    let max: usize = existing.len() + 1;
    let mut c: usize = 1;
    while c <= max
        invariant
            1 <= c <= max + 1,
            max == existing@.len() + 1,
            max + 1 <= usize::MAX,
            ev == existing@.map_values(|s: String| s@),
            ex == (match except {
                Option::Some(e) => Option::<Seq<char>>::Some(e@),
                Option::None => Option::<Seq<char>>::None,
            }),
            base@ == base_name@,
            forall|m: int| 1 <= m < c ==> !cand_ok(ev, ex, #[trigger] cand_name(base@, m)),
            first_ok_from(ev, base@, ex, 1, (max) as nat)
                == first_ok_from(ev, base@, ex, c as int, (max + 1 - c) as nat),
        decreases max + 1 - c,
    {
        let name = cand_name_of(&base, c);
        let in_existing = existing_contains(existing, &name);
        let matches_except = match except {
            Some(e) => crate::text::eq_chars_str(&name, e.as_str()),
            None => false,
        };
        if !in_existing || matches_except {
            proof {
                assert(cand_ok(ev, ex, cand_name(base@, c as int)));
                assert(first_ok_from(ev, base@, ex, c as int, (max + 1 - c) as nat)
                    == c as int);
            }
            return string_of(&name);
        }
        c = c + 1;
    }
    proof {
        // Among existing.len() + 1 distinct candidates one is always free,
        // so the loop cannot run out.
        lemma_pigeonhole(ev, base@, ex, max as int);
        assert(false);
    }
    String::new()
}

proof fn lemma_first_ok_props(
    existing: Seq<Seq<char>>,
    base: Seq<char>,
    except: Option<Seq<char>>,
    c: int,
    fuel: nat,
)
    requires
        exists|j: int| c <= j < c + fuel
            && cand_ok(existing, except, #[trigger] cand_name(base, j)),
    ensures
        ({
            let r = first_ok_from(existing, base, except, c, fuel);
            &&& c <= r < c + fuel
            &&& cand_ok(existing, except, cand_name(base, r))
            &&& forall|m: int| c <= m < r ==> !cand_ok(existing, except, #[trigger] cand_name(base, m))
        }),
    decreases fuel,
{
    if !cand_ok(existing, except, cand_name(base, c)) {
        let j = choose|j: int| c <= j < c + fuel
            && cand_ok(existing, except, #[trigger] cand_name(base, j));
        assert(c + 1 <= j < (c + 1) + (fuel - 1));
        lemma_first_ok_props(existing, base, except, c + 1, (fuel - 1) as nat);
    }
}

proof fn lemma_first_ok_is(
    existing: Seq<Seq<char>>,
    base: Seq<char>,
    except: Option<Seq<char>>,
    c: int,
    fuel: nat,
    j: int,
)
    requires
        c <= j < c + fuel,
        cand_ok(existing, except, cand_name(base, j)),
        forall|m: int| c <= m < j ==> !cand_ok(existing, except, #[trigger] cand_name(base, m)),
    ensures
        first_ok_from(existing, base, except, c, fuel) == j,
    decreases fuel,
{
    if c < j {
        lemma_first_ok_is(existing, base, except, c + 1, (fuel - 1) as nat, j);
    }
}

/// What the unique-name search settles on: an acceptable candidate, the
/// first acceptable one, within one more than the number of existing names.
pub proof fn lemma_unique_name_props(
    existing: Seq<Seq<char>>,
    base: Seq<char>,
    except: Option<Seq<char>>,
)
    ensures
        1 <= unique_counter(existing, base, except) <= existing.len() + 1,
        cand_ok(existing, except, unique_name(existing, base, except)),
        forall|m: int| 1 <= m < unique_counter(existing, base, except)
            ==> !cand_ok(existing, except, #[trigger] cand_name(base, m)),
{
    lemma_pigeonhole(existing, base, except, existing.len() + 1 as int);
    lemma_first_ok_props(existing, base, except, 1, (existing.len() + 1) as nat);
}

/// Uniqueness of fresh saves: a save with no file of its own never reuses an
/// existing file name, so two saves of the same title under different
/// identifiers land in two distinct files.
pub proof fn lemma_unique_name_fresh(existing: Seq<Seq<char>>, base: Seq<char>)
    ensures
        !existing.contains(unique_name(existing, base, Option::None)),
{
    lemma_unique_name_props(existing, base, Option::None);
}

/// Stability of resaves: after a save lands in its chosen file, saving again
/// with the same title — the note's own file now both present and allowed —
/// picks the same file again, so no third file appears.
pub proof fn lemma_resave_keeps_name(existing: Seq<Seq<char>>, base: Seq<char>)
    ensures
        ({
            let n1 = unique_name(existing, base, Option::None);
            unique_name(existing.push(n1), base, Option::Some(n1)) == n1
        }),
{
    let n1 = unique_name(existing, base, Option::None);
    let c1 = unique_counter(existing, base, Option::None);
    lemma_unique_name_props(existing, base, Option::None);
    let ev2 = existing.push(n1);
    let ex2 = Option::Some(n1);
    assert(cand_ok(ev2, ex2, cand_name(base, c1)));
    assert forall|m: int| 1 <= m < c1
        implies !cand_ok(ev2, ex2, #[trigger] cand_name(base, m)) by {
        assert(existing.contains(cand_name(base, m)));
        let w = choose|w: int| 0 <= w < existing.len() && existing[w] == cand_name(base, m);
        assert(ev2[w] == cand_name(base, m));
        assert(ev2.contains(cand_name(base, m)));
        lemma_cand_name_injective(base, m, c1);
    }
    assert(1 <= c1 < 1 + (ev2.len() + 1 as int));
    lemma_first_ok_is(existing.push(n1), base, Option::Some(n1), 1,
        (ev2.len() + 1) as nat, c1);
}

// ── The auto-save plan ──

/// What a caller hands the auto-save: identifier, title, content, an
/// optional folder, and whether the title was set by hand.
pub struct AutoSavePayload {
    pub note_id: String,
    pub title: String,
    pub content: String,
    pub folder_path: Option<String>,
    pub is_title_manual: Option<bool>,
}

/// What a completed auto-save reports back.
pub struct AutoSaveResult {
    pub file_path: String,
    pub note_id: String,
    pub created_at: u64,
    pub updated_at: u64,
}

/// Everything a save needs short of touching the disk: write `content` to
/// `target_rel_path` under the root, then delete `old_rel_path` if one is
/// given, and persist `index`.
pub struct SavePlan {
    pub note_id: String,
    pub target_rel_path: String,
    pub content: String,
    pub old_rel_path: Option<String>,
    pub index: NoteIndex,
    pub created_at: u64,
}

pub open spec fn opt_str_view(o: Option<String>) -> Option<Seq<char>> {
    match o {
        Option::Some(s) => Option::Some(s@),
        Option::None => Option::None,
    }
}

/// The sanitized identifier, with the fixed fallback token when sanitisation
/// leaves nothing.
pub open spec fn safe_id_spec(id: Seq<char>) -> Seq<char> {
    if keep_id_chars(id).len() == 0 {
        "note"@
    } else {
        keep_id_chars(id)
    }
}

/// The folder a payload saves into.
pub open spec fn plan_folder(p: &AutoSavePayload) -> Seq<char> {
    sanitize_folder_spec(opt_str_view(p.folder_path))
}

/// The title the file name derives from: the payload's, or the
/// content-derived title when the payload's is empty.
pub open spec fn plan_slug_title(p: &AutoSavePayload) -> Seq<char> {
    if p.title@.len() == 0 {
        title_spec(p.content@)
    } else {
        p.title@
    }
}

/// The note's own current file name, when it already lives in the target
/// folder; colliding with it is allowed.
pub open spec fn plan_except(
    iv: Seq<(Seq<char>, EntryV)>,
    safe_id: Seq<char>,
    folder: Seq<char>,
) -> Option<Seq<char>> {
    match lookup(iv, safe_id) {
        Option::Some(e) => {
            if rel_dirname(e.relative_path) == folder {
                Option::Some(rel_basename(e.relative_path))
            } else {
                Option::None
            }
        },
        Option::None => Option::None,
    }
}

/// The relative path the save writes to.
pub open spec fn plan_target_rel(
    iv: Seq<(Seq<char>, EntryV)>,
    p: &AutoSavePayload,
    existing: Seq<Seq<char>>,
) -> Seq<char> {
    join_rel(
        plan_folder(p),
        unique_name(
            existing,
            slug_spec(plan_slug_title(p)),
            plan_except(iv, safe_id_spec(p.note_id@), plan_folder(p)),
        ),
    )
}

/// The creation time carried over from an existing entry, or stamped now.
pub open spec fn plan_created_at(
    iv: Seq<(Seq<char>, EntryV)>,
    safe_id: Seq<char>,
    now_ms: u64,
) -> u64 {
    match lookup(iv, safe_id) {
        Option::Some(e) => e.created_at,
        Option::None => now_ms,
    }
}

/// The manual title an entry keeps: the payload's title trimmed and capped
/// at fifty characters, only when the caller marked it manual and it is not
/// blank.
pub open spec fn plan_manual_title(p: &AutoSavePayload) -> Option<Seq<char>> {
    let cut = take_upto(trim_seq(p.title@), 50);
    if p.is_title_manual == Option::Some(true) && cut.len() > 0 {
        Option::Some(cut)
    } else {
        Option::None
    }
}

/// The old file left behind by a rename, if the path changed.
pub open spec fn plan_old_rel(
    iv: Seq<(Seq<char>, EntryV)>,
    safe_id: Seq<char>,
    target: Seq<char>,
) -> Option<Seq<char>> {
    match lookup(iv, safe_id) {
        Option::Some(e) => {
            if e.relative_path == target {
                Option::None
            } else {
                Option::Some(e.relative_path)
            }
        },
        Option::None => Option::None,
    }
}

/// Plan an auto-save without touching the disk. `existing` holds the names
/// present in the target directory; `now_ms` stamps a first save. The plan
/// carries the unique target path, the CRLF content, the old path to drop
/// after a rename, and the updated index with `created_at` preserved and the
/// manual title set or cleared.
pub fn plan_auto_save(
    index: NoteIndex,
    payload: &AutoSavePayload,
    existing: &Vec<String>,
    now_ms: u64,
) -> (plan: SavePlan)
    requires
        existing@.len() + 2 <= usize::MAX,
    ensures
        plan.note_id@ == safe_id_spec(payload.note_id@),
        plan.target_rel_path@ == plan_target_rel(
            index@, payload, existing@.map_values(|s: String| s@)),
        plan.content@ == to_crlf_spec(payload.content@),
        opt_str_view(plan.old_rel_path) == plan_old_rel(
            index@,
            safe_id_spec(payload.note_id@),
            plan_target_rel(index@, payload, existing@.map_values(|s: String| s@)),
        ),
        plan.created_at == plan_created_at(index@, safe_id_spec(payload.note_id@), now_ms),
        plan.index@ == upsert_spec(
            index@,
            safe_id_spec(payload.note_id@),
            EntryV {
                relative_path: plan_target_rel(
                    index@, payload, existing@.map_values(|s: String| s@)),
                created_at: plan_created_at(index@, safe_id_spec(payload.note_id@), now_ms),
                manual_title: plan_manual_title(payload),
            },
        ),
{
    let mut index = index;
    let ghost iv = index@;
    let safe_id = {
        let s = sanitize_note_id(payload.note_id.as_str());
        if s.as_str().unicode_len() == 0 {
            String::from_str("note")
        } else {
            s
        }
    };
    let folder = match &payload.folder_path {
        Some(s) => sanitize_folder_path(Some(s.as_str())),
        None => sanitize_folder_path(None),
    };
    let existing_info: Option<(String, u64)> = match index.get(&safe_id) {
        Some(e) => Some((e.relative_path.clone(), e.created_at)),
        None => None,
    };
    let title_for_slug = if payload.title.as_str().unicode_len() == 0 {
        derive_title(payload.content.as_str())
    } else {
        payload.title.clone()
    };
    let base = slugify_title(title_for_slug.as_str());
    let except: Option<String> = match &existing_info {
        Some((rel, _)) => {
            let rc = chars_of(rel.as_str());
            let (dir, name) = split_rel_path(&rc);
            if crate::text::eq_chars_str(&dir, folder.as_str()) {
                Some(string_of(&name))
            } else {
                None
            }
        },
        None => None,
    };
    let chosen = ensure_unique_file_path(existing, base.as_str(), except.as_ref());
    let target_rel = if folder.as_str().unicode_len() == 0 {
        let t = chosen;
        t
    } else {
        let mut tv = chars_of(folder.as_str());
        tv.push('/');
        let cv = chars_of(chosen.as_str());
        push_chars(&mut tv, &cv);
        proof {
            assert(tv@ =~= folder@ + seq!['/'] + chosen@);
        }
        string_of(&tv)
    };
    let created_at = match &existing_info {
        Some((_, c)) => *c,
        None => now_ms,
    };
    let old_rel: Option<String> = match existing_info {
        Some((rel, _)) => {
            if rel == target_rel {
                None
            } else {
                Some(rel)
            }
        },
        None => None,
    };
    let manual_title: Option<String> = {
        let tc = chars_of(payload.title.as_str());
        let trimmed = trim_of(&tc);
        let cut = if trimmed.len() > 50 {
            copy_range(&trimmed, 0, 50)
        } else {
            copy_range(&trimmed, 0, trimmed.len())
        };
        proof {
            assert(cut@ =~= take_upto(trim_seq(payload.title@), 50));
        }
        let manual = match payload.is_title_manual {
            Some(b) => b,
            None => false,
        };
        if manual && cut.len() > 0 {
            Some(string_of(&cut))
        } else {
            None
        }
    };
    let note_id_out = safe_id.clone();
    let content = to_windows_crlf(payload.content.as_str());
    index.upsert(safe_id, NoteIndexEntry {
        relative_path: target_rel.clone(),
        created_at,
        manual_title,
    });
    SavePlan {
        note_id: note_id_out,
        target_rel_path: target_rel,
        content,
        old_rel_path: old_rel,
        index,
        created_at,
    }
}

// ── Loaded notes ──

/// One note as the load path hands it back: identifiers, derived texts and
/// timestamps.
pub struct LoadedNote {
    pub note_id: String,
    pub title: String,
    pub is_title_manual: bool,
    pub plain_text: String,
    pub content: String,
    pub folder_path: String,
    pub created_at: u64,
    pub updated_at: u64,
    pub file_path: String,
}

/// The display title of a loaded note: the trimmed manual title when one is
/// set and not blank, else the content-derived title.
pub open spec fn loaded_title(mt: Option<Seq<char>>, md: Seq<char>) -> Seq<char> {
    match mt {
        Option::Some(t) => {
            if trim_seq(t).len() > 0 {
                trim_seq(t)
            } else {
                title_spec(md)
            }
        },
        Option::None => title_spec(md),
    }
}

/// Whether a manual title is in force.
pub open spec fn manual_in_force(mt: Option<Seq<char>>) -> bool {
    match mt {
        Option::Some(t) => trim_seq(t).len() > 0,
        Option::None => false,
    }
}

/// Assemble one loaded note from its index entry and its file's text.
pub fn build_loaded_note(
    note_id: &String,
    entry: &NoteIndexEntry,
    markdown: &str,
    updated_at: u64,
    file_path: &String,
) -> (n: LoadedNote)
    ensures
        n.note_id@ == note_id@,
        n.title@ == loaded_title(entry@.manual_title, markdown@),
        n.is_title_manual == manual_in_force(entry@.manual_title),
        n.plain_text@ == plain_spec(markdown@),
        n.content@ == html_spec(markdown@),
        n.folder_path@ == rel_dirname(entry@.relative_path),
        n.created_at == entry.created_at,
        n.updated_at == updated_at,
        n.file_path@ == file_path@,
{
    let title = match &entry.manual_title {
        Some(mt) => {
            let tc = chars_of(mt.as_str());
            let trimmed = trim_of(&tc);
            if trimmed.len() > 0 {
                string_of(&trimmed)
            } else {
                derive_title(markdown)
            }
        },
        None => derive_title(markdown),
    };
    let is_manual = match &entry.manual_title {
        Some(mt) => {
            let tc = chars_of(mt.as_str());
            let trimmed = trim_of(&tc);
            trimmed.len() > 0
        },
        None => false,
    };
    let rc = chars_of(entry.relative_path.as_str());
    let (dir, _name) = split_rel_path(&rc);
    LoadedNote {
        note_id: note_id.clone(),
        title,
        is_title_manual: is_manual,
        plain_text: markdown_to_plain_text(markdown),
        content: markdown_to_html(markdown),
        folder_path: string_of(&dir),
        created_at: entry.created_at,
        updated_at,
        file_path: file_path.clone(),
    }
}

/// Notes in the order the load path reports them: most recently updated
/// first.
pub open spec fn sorted_by_updated_desc(s: Seq<LoadedNote>) -> bool {
    forall|i: int, j: int| 0 <= i < j < s.len()
        ==> (#[trigger] s[i]).updated_at >= (#[trigger] s[j]).updated_at
}

/// Order notes by update time, most recent first. The result holds exactly
/// the given notes.
pub fn sort_loaded_notes(notes: Vec<LoadedNote>) -> (r: Vec<LoadedNote>)
    ensures
        sorted_by_updated_desc(r@),
        r@.to_multiset() == notes@.to_multiset(),
{
    broadcast use vstd::seq_lib::group_to_multiset_ensures;

    let ghost orig = notes@;
    let mut src = notes;
    let mut out: Vec<LoadedNote> = Vec::new();
    while src.len() > 0
        invariant
            sorted_by_updated_desc(out@),
            forall|i: int, j: int| 0 <= i < out@.len() && 0 <= j < src@.len()
                ==> (#[trigger] out@[i]).updated_at >= (#[trigger] src@[j]).updated_at,
            out@.to_multiset().add(src@.to_multiset()) == orig.to_multiset(),
        decreases src@.len(),
    {
        let mut m: usize = 0;
        let mut j: usize = 1;
        while j < src.len()
            invariant
                m < j <= src@.len() || (j <= src@.len() && m == 0),
                m < src@.len(),
                forall|k: int| 0 <= k < j ==> (#[trigger] src@[k]).updated_at
                    <= src@[m as int].updated_at,
            decreases src@.len() - j,
        {
            if src[j].updated_at > src[m].updated_at {
                m = j;
            }
            j = j + 1;
        }
        let ghost pre_out = out@;
        let ghost pre_src = src@;
        let picked = src.remove(m);
        out.push(picked);
        proof {
            broadcast use vstd::seq_lib::group_to_multiset_ensures;
            broadcast use vstd::multiset::group_multiset_axioms;

            assert(out@ =~= pre_out.push(pre_src[m as int]));
            assert(src@ =~= pre_src.remove(m as int));
            assert(pre_out.push(pre_src[m as int]).to_multiset()
                =~= pre_out.to_multiset().insert(pre_src[m as int]));
            assert(pre_src.remove(m as int).to_multiset()
                =~= pre_src.to_multiset().remove(pre_src[m as int]));
            assert(out@.to_multiset() == pre_out.to_multiset().insert(pre_src[m as int]));
            assert(src@.to_multiset() == pre_src.to_multiset().remove(pre_src[m as int]));
            assert(pre_src.to_multiset().count(pre_src[m as int]) > 0) by {
                assert(pre_src.contains(pre_src[m as int]));
            }
            assert(out@.to_multiset().add(src@.to_multiset()) =~= orig.to_multiset());
            assert forall|i2: int, j2: int| 0 <= i2 < out@.len() && 0 <= j2 < src@.len()
                implies (#[trigger] out@[i2]).updated_at >= (#[trigger] src@[j2]).updated_at by {
                if j2 < m {
                    assert(src@[j2] == pre_src[j2]);
                } else {
                    assert(src@[j2] == pre_src[j2 + 1]);
                }
            }
        }
    }
    proof {
        broadcast use vstd::seq_lib::group_to_multiset_ensures;
        broadcast use vstd::multiset::group_multiset_axioms;

        assert(src@ =~= Seq::<LoadedNote>::empty());
        assert(src@.to_multiset().len() == 0);
        assert(out@.to_multiset().add(src@.to_multiset()) =~= out@.to_multiset());
    }
    out
}

// ── Settings and import views ──

/// Where auto-saves go: the user's override if any, the directory in effect,
/// and whether that is the default location.
pub struct AutoSaveDirInfo {
    pub custom_dir: Option<String>,
    pub effective_dir: String,
    pub is_default: bool,
}

/// One text file picked for import: its derived title, its content, and
/// where it came from.
pub struct ImportedFile {
    pub title: String,
    pub content: String,
    pub file_path: String,
}

/// Describe the save directory in effect: the location is the default
/// exactly when no override is set.
pub fn auto_save_dir_info(custom_dir: Option<String>, effective_dir: String) -> (r: AutoSaveDirInfo)
    ensures
        opt_str_view(r.custom_dir) == opt_str_view(custom_dir),
        r.effective_dir@ == effective_dir@,
        r.is_default == (custom_dir is None),
{
    let is_default = custom_dir.is_none();
    AutoSaveDirInfo { custom_dir, effective_dir, is_default }
}

// ── Small path and title helpers ──

/// Whether a file extension names a markdown file: `md` up to ASCII letter
/// case — the only extension the note commands accept.
pub fn is_markdown_extension(ext: &str) -> (r: bool)
    ensures
        r == (ext@.len() == 2 && crate::line::eq_ci(ext@[0], 'm') && crate::line::eq_ci(ext@[1], 'd')),
{
    if ext.unicode_len() != 2 {
        return false;
    }
    crate::line::eq_ci_at(ext.get_char(0), 'm') && crate::line::eq_ci_at(ext.get_char(1), 'd')
}

/// The fixed notes directory under the user's documents folder, with
/// forward-slash separators.
pub fn get_auto_save_dir(documents_dir: &str) -> (r: String)
    ensures
        r@ == documents_dir@ + "/HwanNote/Notes"@,
{
    let mut v = chars_of(documents_dir);
    push_str(&mut v, "/HwanNote/Notes");
    string_of(&v)
}

/// The title an imported file gets from its stem: trimmed and capped at
/// fifty characters, with the placeholder when nothing is left.
pub fn title_from_filename(file_stem: &str) -> (r: String)
    ensures
        r@ == {
            let cut = take_upto(trim_seq(file_stem@), 50);
            if cut.len() == 0 {
                crate::markdown::no_title()
            } else {
                cut
            }
        },
{
    let tc = chars_of(file_stem);
    let trimmed = trim_of(&tc);
    let cut = if trimmed.len() > 50 {
        copy_range(&trimmed, 0, 50)
    } else {
        copy_range(&trimmed, 0, trimmed.len())
    };
    proof {
        assert(cut@ =~= take_upto(trim_seq(file_stem@), 50));
    }
    if cut.len() == 0 {
        String::from_str("\u{c81c}\u{baa9} \u{c5c6}\u{c74c}")
    } else {
        string_of(&cut)
    }
}

} // verus!
