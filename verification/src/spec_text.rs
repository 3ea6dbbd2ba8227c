//! Reading the text of a problem: the items on the first line (primary,
//! then `|`, then secondary), one option per further line; blank lines and
//! lines that start with `|` are comments.

use vstd::prelude::*;

use crate::{Count, Data, Error};

verus! {

/// The characters of `s`.
pub fn chars_of(s: &str) -> (r: Vec<char>)
    ensures
        r@ == s@,
{
    let mut v: Vec<char> = Vec::new();
    for c in it: s.chars()
        invariant
            v@ == it.seq().take(it.index() as int),
    {
        v.push(c);
    }
    v
}

/// `String::push`, which appends a character at the end of the string.
#[verifier::external_body]
fn push_char(s: &mut String, c: char)
    ensures
        final(s)@ == old(s)@.push(c),
{
    s.push(c);
}

/// The string of the characters `cs`.
pub fn string_of(cs: &Vec<char>) -> (r: String)
    ensures
        r@ == cs@,
{
    let mut s = String::new();
    let mut k: usize = 0;
    while k < cs.len()
        invariant
            k <= cs@.len(),
            s@ == cs@.take(k as int),
        decreases cs@.len() - k,
    {
        push_char(&mut s, cs[k]);
        proof {
            assert(cs@.take(k + 1) =~= cs@.take(k as int).push(cs@[k as int]));
        }
        k += 1;
    }
    proof {
        assert(cs@.take(k as int) =~= cs@);
    }
    s
}

/// The White_Space characters of Unicode, which `char::is_whitespace`
/// recognizes.
pub open spec fn is_space(c: char) -> bool {
    let u = c as u32;
    ||| 9 <= u <= 13
    ||| u == 32
    ||| u == 0x85
    ||| u == 0xA0
    ||| u == 0x1680
    ||| 0x2000 <= u <= 0x200A
    ||| u == 0x2028
    ||| u == 0x2029
    ||| u == 0x202F
    ||| u == 0x205F
    ||| u == 0x3000
}

/// Whether `c` is white space.
pub fn is_whitespace(c: char) -> (r: bool)
    ensures
        r == is_space(c),
{
    let u = c as u32;
    (9 <= u && u <= 13) || u == 32 || u == 0x85 || u == 0xA0 || u == 0x1680 || (0x2000 <= u && u
        <= 0x200A) || u == 0x2028 || u == 0x2029 || u == 0x202F || u == 0x205F || u == 0x3000
}

/// The pieces of `s` between the occurrences of `sep` (an empty `s` is
/// one empty piece).
pub open spec fn segments(s: Seq<char>, sep: char) -> Seq<Seq<char>>
    decreases s.len(),
{
    if s.len() == 0 {
        seq![Seq::<char>::empty()]
    } else {
        let r = segments(s.drop_last(), sep);
        if s.last() == sep {
            r.push(Seq::empty())
        } else {
            r.update(r.len() - 1, r.last().push(s.last()))
        }
    }
}

pub proof fn lemma_segments_len(s: Seq<char>, sep: char)
    ensures
        segments(s, sep).len() >= 1,
    decreases s.len(),
{
    if s.len() > 0 {
        lemma_segments_len(s.drop_last(), sep);
    }
}

/// The views of vectors of characters.
pub open spec fn views(v: Seq<Vec<char>>) -> Seq<Seq<char>> {
    v.map_values(|x: Vec<char>| x@)
}

/// Split `s` at each `sep`.
pub fn split_at_char(s: &Vec<char>, sep: char) -> (r: Vec<Vec<char>>)
    ensures
        views(r@) == segments(s@, sep),
{
    let mut done: Vec<Vec<char>> = Vec::new();
    let mut cur: Vec<char> = Vec::new();
    let mut k: usize = 0;
    while k < s.len()
        invariant
            k <= s@.len(),
            segments(s@.take(k as int), sep) == views(done@).push(cur@),
        decreases s@.len() - k,
    {
        let c = s[k];
        proof {
            assert(s@.take(k + 1).drop_last() =~= s@.take(k as int));
            assert(s@.take(k + 1).last() == c);
        }
        if c == sep {
            let ghost old_done = done@;
            done.push(cur);
            cur = Vec::new();
            proof {
                assert(views(done@) =~= views(old_done).push(views(done@).last()));
                assert(segments(s@.take(k + 1), sep) =~= views(done@).push(cur@));
            }
        } else {
            cur.push(c);
            proof {
                assert(segments(s@.take(k + 1), sep) =~= views(done@).push(cur@));
            }
        }
        k += 1;
    }
    done.push(cur);
    proof {
        assert(s@.take(k as int) =~= s@);
        assert(views(done@) =~= segments(s@, sep));
    }
    done
}


/// `s` without its leading white space.
pub open spec fn trim_start(s: Seq<char>) -> Seq<char>
    decreases s.len(),
{
    if s.len() > 0 && is_space(s[0]) {
        trim_start(s.drop_first())
    } else {
        s
    }
}

/// `s` without its trailing white space.
pub open spec fn trim_end(s: Seq<char>) -> Seq<char>
    decreases s.len(),
{
    if s.len() > 0 && is_space(s.last()) {
        trim_end(s.drop_last())
    } else {
        s
    }
}

/// `s` without its leading and trailing white space.
pub open spec fn trim(s: Seq<char>) -> Seq<char> {
    trim_end(trim_start(s))
}

/// `s` without its leading and trailing white space.
pub fn trimmed(s: &Vec<char>) -> (r: Vec<char>)
    ensures
        r@ == trim(s@),
{
    let n = s.len();
    let mut i: usize = 0;
    proof {
        assert(s@.subrange(0, n as int) =~= s@);
    }
    while i < n && is_whitespace(s[i])
        invariant
            n == s@.len(),
            i <= n,
            trim_start(s@) == trim_start(s@.subrange(i as int, n as int)),
        decreases n - i,
    {
        proof {
            assert(s@.subrange(i + 1, n as int) =~= s@.subrange(i as int, n as int).drop_first());
        }
        i += 1;
    }
    proof {
        assert(trim_start(s@.subrange(i as int, n as int)) == s@.subrange(i as int, n as int));
    }
    let mut j: usize = n;
    while j > i && is_whitespace(s[j - 1])
        invariant
            n == s@.len(),
            i <= j <= n,
            trim_end(s@.subrange(i as int, n as int)) == trim_end(s@.subrange(i as int, j as int)),
        decreases j - i,
    {
        proof {
            assert(s@.subrange(i as int, j - 1) =~= s@.subrange(i as int, j as int).drop_last());
        }
        j -= 1;
    }
    let mut r: Vec<char> = Vec::new();
    let mut k: usize = i;
    while k < j
        invariant
            i <= k <= j <= n,
            n == s@.len(),
            r@ == s@.subrange(i as int, k as int),
        decreases j - k,
    {
        r.push(s[k]);
        proof {
            assert(s@.subrange(i as int, k + 1) =~= s@.subrange(i as int, k as int).push(s@[k as int]));
        }
        k += 1;
    }
    proof {
        assert(trim_end(s@.subrange(i as int, j as int)) == s@.subrange(i as int, j as int));
    }
    r
}

/// The pieces of `s` between white space characters.
pub open spec fn pieces(s: Seq<char>) -> Seq<Seq<char>>
    decreases s.len(),
{
    if s.len() == 0 {
        seq![Seq::<char>::empty()]
    } else {
        let r = pieces(s.drop_last());
        if is_space(s.last()) {
            r.push(Seq::empty())
        } else {
            r.update(r.len() - 1, r.last().push(s.last()))
        }
    }
}

/// The sequences of `ps` that are not empty.
pub open spec fn nonempty(ps: Seq<Seq<char>>) -> Seq<Seq<char>>
    decreases ps.len(),
{
    if ps.len() == 0 {
        Seq::empty()
    } else if ps.last().len() == 0 {
        nonempty(ps.drop_last())
    } else {
        nonempty(ps.drop_last()).push(ps.last())
    }
}

/// The words of `s`: its maximal runs of characters that are not white
/// space, as `str::split_whitespace` gives them.
pub open spec fn words(s: Seq<char>) -> Seq<Seq<char>> {
    nonempty(pieces(s))
}

/// The words of `s`.
pub fn split_words(s: &Vec<char>) -> (r: Vec<Vec<char>>)
    ensures
        views(r@) == words(s@),
{
    let mut done: Vec<Vec<char>> = Vec::new();
    let mut cur: Vec<char> = Vec::new();
    let mut k: usize = 0;
    while k < s.len()
        invariant
            k <= s@.len(),
            pieces(s@.take(k as int)).last() == cur@,
            pieces(s@.take(k as int)).len() >= 1,
            nonempty(pieces(s@.take(k as int)).drop_last()) == views(done@),
        decreases s@.len() - k,
    {
        let c = s[k];
        let ghost ps = pieces(s@.take(k as int));
        proof {
            assert(s@.take(k + 1).drop_last() =~= s@.take(k as int));
            assert(s@.take(k + 1).last() == c);
        }
        if is_whitespace(c) {
            let ghost old_done = done@;
            if cur.len() > 0 {
                done.push(cur);
                proof {
                    assert(views(done@) =~= views(old_done).push(ps.last()));
                    assert(ps.drop_last().push(ps.last()) =~= ps);
                }
            } else {
                proof {
                    assert(ps.drop_last().push(ps.last()) =~= ps);
                }
            }
            cur = Vec::new();
            proof {
                let qs = pieces(s@.take(k + 1));
                assert(qs == ps.push(Seq::empty()));
                assert(qs.drop_last() =~= ps);
                assert(qs.last() =~= cur@);
            }
        } else {
            cur.push(c);
            proof {
                let qs = pieces(s@.take(k + 1));
                assert(qs.drop_last() =~= ps.drop_last());
                assert(qs.last() =~= cur@);
            }
        }
        k += 1;
    }
    proof {
        assert(s@.take(k as int) =~= s@);
    }
    let ghost ps = pieces(s@);
    let ghost old_done = done@;
    if cur.len() > 0 {
        done.push(cur);
        proof {
            assert(views(done@) =~= views(old_done).push(ps.last()));
        }
    }
    proof {
        assert(ps.drop_last().push(ps.last()) =~= ps);
    }
    done
}

/// The lines of text that are not blank and not comments, trimmed.
pub open spec fn content(ls: Seq<Seq<char>>) -> Seq<Seq<char>>
    decreases ls.len(),
{
    if ls.len() == 0 {
        Seq::empty()
    } else {
        let r = content(ls.drop_last());
        let t = trim(ls.last());
        if t.len() > 0 && t[0] != '|' {
            r.push(t)
        } else {
            r
        }
    }
}

/// The lines of `s` that hold items or options, trimmed.
pub open spec fn text_lines(s: Seq<char>) -> Seq<Seq<char>> {
    content(segments(s, '\n'))
}

/// The lines of `s` that hold items or options, trimmed.
pub fn content_lines(s: &Vec<char>) -> (r: Vec<Vec<char>>)
    ensures
        views(r@) == text_lines(s@),
{
    let ls = split_at_char(s, '\n');
    let mut r: Vec<Vec<char>> = Vec::new();
    let mut k: usize = 0;
    while k < ls.len()
        invariant
            k <= ls@.len(),
            views(ls@) == segments(s@, '\n'),
            views(r@) == content(views(ls@).take(k as int)),
        decreases ls@.len() - k,
    {
        let t = trimmed(&ls[k]);
        proof {
            assert(views(ls@).take(k + 1).drop_last() =~= views(ls@).take(k as int));
            assert(views(ls@).take(k + 1).last() == ls@[k as int]@);
        }
        if t.len() > 0 && t[0] != '|' {
            let ghost old_r = r@;
            r.push(t);
            proof {
                assert(views(r@) =~= views(old_r).push(t@));
            }
        }
        k += 1;
    }
    proof {
        assert(views(ls@).take(k as int) =~= views(ls@));
    }
    r
}

/// The word `|`.
pub open spec fn is_bar(t: Seq<char>) -> bool {
    t == seq!['|']
}

/// The groups of the words `ts` between words `|`.
pub open spec fn groups(ts: Seq<Seq<char>>) -> Seq<Seq<Seq<char>>>
    decreases ts.len(),
{
    if ts.len() == 0 {
        seq![Seq::<Seq<char>>::empty()]
    } else {
        let r = groups(ts.drop_last());
        if is_bar(ts.last()) {
            r.push(Seq::empty())
        } else {
            r.update(r.len() - 1, r.last().push(ts.last()))
        }
    }
}

pub proof fn lemma_groups_len(ts: Seq<Seq<char>>)
    ensures
        groups(ts).len() >= 1,
    decreases ts.len(),
{
    if ts.len() > 0 {
        lemma_groups_len(ts.drop_last());
    }
}

/// The words of the groups of words.
pub open spec fn group_views(g: Seq<Vec<Vec<char>>>) -> Seq<Seq<Seq<char>>> {
    g.map_values(|v: Vec<Vec<char>>| views(v@))
}

/// Split the words `ts` at the words `|`.
pub fn split_groups(ts: &Vec<Vec<char>>) -> (r: Vec<Vec<Vec<char>>>)
    ensures
        group_views(r@) == groups(views(ts@)),
{
    let mut done: Vec<Vec<Vec<char>>> = Vec::new();
    let mut cur: Vec<Vec<char>> = Vec::new();
    let mut k: usize = 0;
    proof {
        assert(views(ts@).take(0) =~= Seq::<Seq<char>>::empty());
        assert(views(cur@) =~= Seq::<Seq<char>>::empty());
        assert(group_views(done@) =~= Seq::<Seq<Seq<char>>>::empty());
        assert(group_views(done@).push(views(cur@)) =~= seq![Seq::<Seq<char>>::empty()]);
    }
    while k < ts.len()
        invariant
            k <= ts@.len(),
            groups(views(ts@).take(k as int)) == group_views(done@).push(views(cur@)),
        decreases ts@.len() - k,
    {
        let t = ts[k].clone();
        proof {
            assert(views(ts@).take(k + 1).drop_last() =~= views(ts@).take(k as int));
            assert(views(ts@).take(k + 1).last() == ts@[k as int]@);
        }
        if t.len() == 1 && t[0] == '|' {
            proof {
                assert(t@ =~= seq!['|']);
            }
            let ghost old_done = done@;
            done.push(cur);
            cur = Vec::new();
            proof {
                assert(group_views(done@) =~= group_views(old_done).push(group_views(done@).last()));
                assert(views(cur@) =~= Seq::<Seq<char>>::empty());
                assert(groups(views(ts@).take(k + 1)) =~= group_views(done@).push(views(cur@)));
            }
        } else {
            proof {
                assert(!is_bar(t@)) by {
                    if is_bar(t@) {
                        assert(t@.len() == 1 && t@[0] == '|');
                    }
                }
            }
            let ghost old_cur = cur@;
            cur.push(t);
            proof {
                assert(views(cur@) =~= views(old_cur).push(ts@[k as int]@));
                assert(groups(views(ts@).take(k + 1)) =~= group_views(done@).push(views(cur@)));
            }
        }
        k += 1;
    }
    let ghost old_done = done@;
    done.push(cur);
    proof {
        assert(views(ts@).take(k as int) =~= views(ts@));
        assert(group_views(done@) =~= group_views(old_done).push(group_views(done@).last()));
        assert(group_views(done@) =~= groups(views(ts@)));
    }
    done
}

/// Whether the word `t` holds a `#`.
pub fn has_sharp(t: &Vec<char>) -> (r: bool)
    ensures
        r == t@.contains('#'),
{
    let mut k: usize = 0;
    while k < t.len()
        invariant
            k <= t@.len(),
            forall|j: int| 0 <= j < k ==> t@[j] != '#',
        decreases t@.len() - k,
    {
        if t[k] == '#' {
            proof {
                assert(t@[k as int] == '#');
            }
            return true;
        }
        k += 1;
    }
    false
}

/// The words of `ts` whose having a `#` is (when `want`) or is not the
/// preference `pref`, in order.
pub open spec fn pick(ts: Seq<Seq<char>>, pref: bool, want: bool) -> Seq<Seq<char>>
    decreases ts.len(),
{
    if ts.len() == 0 {
        Seq::empty()
    } else {
        let r = pick(ts.drop_last(), pref, want);
        if (ts.last().contains('#') == pref) == want {
            r.push(ts.last())
        } else {
            r
        }
    }
}

/// The words `ts` in a stable order that puts first those whose having a
/// `#` matches `pref`.
pub open spec fn sharp_first(ts: Seq<Seq<char>>, pref: bool) -> Seq<Seq<char>> {
    pick(ts, pref, true) + pick(ts, pref, false)
}

/// The words of `ts` that `pick` selects.
fn pick_words(ts: &Vec<Vec<char>>, pref: bool, want: bool, out: &mut Vec<Vec<char>>)
    ensures
        views(final(out)@) == views(old(out)@) + pick(views(ts@), pref, want),
{
    let ghost start = views(out@);
    let mut k: usize = 0;
    while k < ts.len()
        invariant
            k <= ts@.len(),
            views(out@) == start + pick(views(ts@).take(k as int), pref, want),
        decreases ts@.len() - k,
    {
        proof {
            assert(views(ts@).take(k + 1).drop_last() =~= views(ts@).take(k as int));
            assert(views(ts@).take(k + 1).last() == ts@[k as int]@);
        }
        if (has_sharp(&ts[k]) == pref) == want {
            let ghost old_out = out@;
            out.push(ts[k].clone());
            proof {
                assert(views(out@) =~= views(old_out).push(ts@[k as int]@));
            }
        }
        k += 1;
    }
    proof {
        assert(views(ts@).take(k as int) =~= views(ts@));
    }
}

/// The words `ts`, those whose having a `#` matches `pref` first.
pub fn order_sharp(ts: &Vec<Vec<char>>, pref: bool) -> (r: Vec<Vec<char>>)
    ensures
        views(r@) == sharp_first(views(ts@), pref),
{
    let mut r: Vec<Vec<char>> = Vec::new();
    pick_words(ts, pref, true, &mut r);
    pick_words(ts, pref, false, &mut r);
    proof {
        assert(views(Seq::<Vec<char>>::empty()) =~= Seq::<Seq<char>>::empty());
    }
    r
}

/// The strings of the vectors of characters `v`.
pub fn strings_of(v: &Vec<Vec<char>>) -> (r: Vec<String>)
    ensures
        string_views(r@) == views(v@),
{
    let mut r: Vec<String> = Vec::new();
    let mut k: usize = 0;
    while k < v.len()
        invariant
            k <= v@.len(),
            string_views(r@) == views(v@).take(k as int),
        decreases v@.len() - k,
    {
        let s = string_of(&v[k]);
        let ghost old_r = r@;
        r.push(s);
        proof {
            assert(string_views(r@) =~= string_views(old_r).push(v@[k as int]@));
            assert(views(v@).take(k + 1) =~= views(v@).take(k as int).push(v@[k as int]@));
        }
        k += 1;
    }
    proof {
        assert(views(v@).take(k as int) =~= views(v@));
    }
    r
}

/// The characters of strings.
pub open spec fn string_views(v: Seq<String>) -> Seq<Seq<char>> {
    v.map_values(|s: String| s@)
}

/// The items and options of a problem, as words.
pub struct SpecV {
    pub primary: Seq<Seq<char>>,
    pub secondary: Seq<Seq<char>>,
    pub opts: Seq<Seq<Seq<char>>>,
}

/// The items and options of a problem: primary item names, secondary item
/// names, and for each option the words that name its items.
pub struct Spec {
    pub primary: Vec<String>,
    pub secondary: Vec<String>,
    pub opts: Vec<Vec<String>>,
}

impl View for Spec {
    type V = SpecV;

    open spec fn view(&self) -> SpecV {
        SpecV {
            primary: string_views(self.primary@),
            secondary: string_views(self.secondary@),
            opts: self.opts@.map_values(|o: Vec<String>| string_views(o@)),
        }
    }
}

/// What the text `s` describes: the first line holds the items (primary
/// items sorted so that those whose having a `#` matches `sharp_pref`
/// come first, keeping their order, then after a word `|` the secondary
/// items), every further line an option.
pub open spec fn read_spec(s: Seq<char>, sharp_pref: bool) -> Result<SpecV, Error> {
    let ls = text_lines(s);
    if ls.len() == 0 {
        Err(Error::NoItems)
    } else if ls.len() == 1 {
        Err(Error::NoOptions)
    } else {
        let gs = groups(words(ls[0]));
        if gs.len() > 2 {
            Err(Error::TooManySeparators)
        } else if gs.len() == 2 && gs[1].len() == 0 {
            Err(Error::NoSecondaryItems)
        } else {
            Ok(
                SpecV {
                    primary: sharp_first(gs[0], sharp_pref),
                    secondary: if gs.len() == 2 {
                        gs[1]
                    } else {
                        Seq::empty()
                    },
                    opts: ls.drop_first().map_values(|l: Seq<char>| words(l)),
                },
            )
        }
    }
}

impl Spec {
    /// Read a problem from its text.
    pub fn new(spec: &str, sharp_pref: bool) -> (r: Result<Spec, Error>)
        ensures
            match r {
                Ok(sp) => read_spec(spec@, sharp_pref) == Ok::<SpecV, Error>(sp@),
                Err(e) => read_spec(spec@, sharp_pref) == Err::<SpecV, Error>(e),
            },
    {
        let cs = chars_of(spec);
        let ls = content_lines(&cs);
        if ls.len() == 0 {
            return Err(Error::NoItems);
        }
        if ls.len() == 1 {
            return Err(Error::NoOptions);
        }
        let ws = split_words(&ls[0]);
        let gs = split_groups(&ws);
        proof {
            lemma_groups_len(views(ws@));
        }
        if gs.len() > 2 {
            return Err(Error::TooManySeparators);
        }
        if gs.len() == 2 && gs[1].len() == 0 {
            return Err(Error::NoSecondaryItems);
        }
        let ps = order_sharp(&gs[0], sharp_pref);
        let primary = strings_of(&ps);
        let secondary = if gs.len() == 2 {
            strings_of(&gs[1])
        } else {
            Vec::new()
        };
        let mut opts: Vec<Vec<String>> = Vec::new();
        let mut k: usize = 1;
        while k < ls.len()
            invariant
                1 <= k <= ls@.len(),
                views(ls@) == text_lines(spec@),
                opts@.len() == k - 1,
                forall|j: int|
                    0 <= j < k - 1 ==> #[trigger] string_views(opts@[j]@) == words(ls@[j + 1]@),
            decreases ls@.len() - k,
        {
            let w = split_words(&ls[k]);
            opts.push(strings_of(&w));
            k += 1;
        }
        let r = Spec { primary, secondary, opts };
        proof {
            let ghost tl = text_lines(spec@);
            assert(tl[0] == ls@[0]@);
            let gv = groups(words(tl[0]));
            assert(gv == group_views(gs@));
            assert(gv[0] == views(gs@[0]@));
            assert(r@.primary == sharp_first(gv[0], sharp_pref));
            assert(r@.opts =~= tl.drop_first().map_values(|l: Seq<char>| words(l)));
            if gs@.len() == 2 {
                assert(r@.secondary == group_views(gs@)[1]);
            } else {
                assert(r@.secondary =~= Seq::<Seq<char>>::empty());
            }
        }
        Ok(r)
    }
}

/// Whether `c` has Unicode's Alphabetic or Numeric property.
pub uninterp spec fn alphanumeric(c: char) -> bool;

/// `char::is_alphanumeric`, which tells whether `c` is alphabetic or
/// numeric (Unicode's Alphabetic property, or Numeric of type digit,
/// decimal or other); the tables behind it are not restated here.
#[verifier::external_body]
fn char_is_alphanumeric(c: char) -> (r: bool)
    ensures
        r == alphanumeric(c),
{
    c.is_alphanumeric()
}

/// A name of letters, digits and `#`.
pub open spec fn valid_name(s: Seq<char>) -> bool {
    forall|i: int| 0 <= i < s.len() ==> alphanumeric(#[trigger] s[i]) || s[i] == '#'
}

/// No name occurs twice.
pub open spec fn distinct(names: Seq<Seq<char>>) -> bool {
    forall|i: int, j: int| 0 <= i < j < names.len() ==> names[i] != names[j]
}

/// Every name is valid.
pub open spec fn all_valid(names: Seq<Seq<char>>) -> bool {
    forall|i: int| 0 <= i < names.len() ==> valid_name(#[trigger] names[i])
}

/// The check of item names: duplicates first, then invalid names.
pub open spec fn check_names(names: Seq<Seq<char>>) -> Result<(), Error> {
    if !distinct(names) {
        Err(Error::DuplicateItemNames)
    } else if !all_valid(names) {
        Err(Error::InvalidItemName)
    } else {
        Ok(())
    }
}

/// Whether the name `s` is valid.
pub fn is_valid_name(s: &String) -> (r: bool)
    ensures
        r == valid_name(s@),
{
    let cs = chars_of(s.as_str());
    let mut k: usize = 0;
    while k < cs.len()
        invariant
            cs@ == s@,
            k <= cs@.len(),
            forall|i: int| 0 <= i < k ==> alphanumeric(#[trigger] cs@[i]) || cs@[i] == '#',
        decreases cs@.len() - k,
    {
        let c = cs[k];
        if !(char_is_alphanumeric(c) || c == '#') {
            proof {
                assert(!(alphanumeric(s@[k as int]) || s@[k as int] == '#'));
            }
            return false;
        }
        k += 1;
    }
    true
}

/// Check item names: `DuplicateItemNames` when a name occurs twice, else
/// `InvalidItemName` when a name holds other than letters, digits and `#`.
pub fn names_ok(names: &Vec<String>) -> (r: Result<(), Error>)
    ensures
        r == check_names(string_views(names@)),
{
    let ghost ns = string_views(names@);
    let mut i: usize = 0;
    while i < names.len()
        invariant
            ns == string_views(names@),
            i <= names@.len(),
            forall|a: int, b: int| 0 <= a < b < names@.len() && a < i ==> ns[a] != ns[b],
        decreases names@.len() - i,
    {
        let mut j: usize = i + 1;
        while j < names.len()
            invariant
                ns == string_views(names@),
                i < j <= names@.len(),
                forall|a: int, b: int| 0 <= a < b < names@.len() && a < i ==> ns[a] != ns[b],
                forall|b: int| i < b < j ==> ns[i as int] != ns[b],
            decreases names@.len() - j,
        {
            if names[i] == names[j] {
                proof {
                    assert(ns[i as int] == ns[j as int]);
                    assert(!distinct(ns));
                }
                return Err(Error::DuplicateItemNames);
            }
            j += 1;
        }
        i += 1;
    }
    let mut k: usize = 0;
    while k < names.len()
        invariant
            ns == string_views(names@),
            distinct(ns),
            k <= names@.len(),
            forall|a: int| 0 <= a < k ==> valid_name(#[trigger] ns[a]),
        decreases names@.len() - k,
    {
        if !is_valid_name(&names[k]) {
            proof {
                assert(!valid_name(ns[k as int]));
                assert(!all_valid(ns));
            }
            return Err(Error::InvalidItemName);
        }
        k += 1;
    }
    Ok(())
}

/// The index of the last name `t` in `names`, or `-1`.
pub open spec fn last_index(names: Seq<Seq<char>>, t: Seq<char>) -> int
    decreases names.len(),
{
    if names.len() == 0 {
        -1
    } else if names.last() == t {
        names.len() - 1
    } else {
        last_index(names.drop_last(), t)
    }
}

pub proof fn lemma_last_index(names: Seq<Seq<char>>, t: Seq<char>)
    ensures
        -1 <= last_index(names, t) < names.len(),
        last_index(names, t) >= 0 ==> names[last_index(names, t)] == t,
        last_index(names, t) < 0 ==> !names.contains(t),
    decreases names.len(),
{
    if names.len() > 0 {
        lemma_last_index(names.drop_last(), t);
        if names.last() != t && last_index(names, t) < 0 {
            assert forall|i: int| 0 <= i < names.len() implies names[i] != t by {
                if i < names.len() - 1 {
                    assert(names.drop_last()[i] == names[i]);
                }
            }
        }
    }
}

/// The index of the last name equal to `t`.
pub fn find_last(names: &Vec<String>, t: &String) -> (r: Option<usize>)
    ensures
        match r {
            Some(j) => j == last_index(string_views(names@), t@),
            None => last_index(string_views(names@), t@) < 0,
        },
{
    let ghost ns = string_views(names@);
    let mut k: usize = names.len();
    proof {
        assert(ns.take(k as int) =~= ns);
    }
    while k > 0
        invariant
            ns == string_views(names@),
            k <= names@.len(),
            last_index(ns, t@) == last_index(ns.take(k as int), t@),
        decreases k,
    {
        proof {
            assert(ns.take(k as int).drop_last() =~= ns.take(k - 1));
        }
        if names[k - 1] == *t {
            return Some(k - 1);
        }
        k -= 1;
    }
    proof {
        assert(ns.take(0) =~= Seq::<Seq<char>>::empty());
    }
    None
}

/// Whether the word `t` is among the first `k` words of `ts`.
pub fn seen_before(ts: &Vec<String>, k: usize, t: &String) -> (r: bool)
    requires
        k <= ts@.len(),
    ensures
        r == string_views(ts@).take(k as int).contains(t@),
{
    let ghost ws = string_views(ts@).take(k as int);
    let mut j: usize = 0;
    while j < k
        invariant
            ws == string_views(ts@).take(k as int),
            k <= ts@.len(),
            j <= k,
            forall|a: int| 0 <= a < j ==> ws[a] != t@,
        decreases k - j,
    {
        if ts[j] == *t {
            proof {
                assert(ws[j as int] == t@);
            }
            return true;
        }
        j += 1;
    }
    false
}

/// The items (by index in `names`, the last of equal names) of the words
/// `ts` of an option: `InvalidItem` for a word that names no item,
/// `DuplicateItemsInOption` for a word met before, the first such word
/// deciding.
pub open spec fn resolve_words(names: Seq<Seq<char>>, ts: Seq<Seq<char>>) -> Result<Seq<Count>, Error>
    decreases ts.len(),
{
    if ts.len() == 0 {
        Ok(Seq::empty())
    } else {
        match resolve_words(names, ts.drop_last()) {
            Err(e) => Err(e),
            Ok(is) => {
                let t = ts.last();
                let j = last_index(names, t);
                if j < 0 {
                    Err(Error::InvalidItem)
                } else if ts.drop_last().contains(t) {
                    Err(Error::DuplicateItemsInOption)
                } else {
                    Ok(is.push(j as Count))
                }
            },
        }
    }
}

/// The items that the words of an option resolve to are distinct.
pub proof fn lemma_resolve_words_distinct(names: Seq<Seq<char>>, ts: Seq<Seq<char>>)
    requires
        resolve_words(names, ts) is Ok,
        names.len() <= usize::MAX,
    ensures
        resolve_words(names, ts)->Ok_0.len() == ts.len(),
        forall|k: int|
            0 <= k < ts.len() ==> names[#[trigger] resolve_words(names, ts)->Ok_0[k] as int] == ts[k],
        forall|a: int, b: int|
            0 <= a < b < ts.len() ==> #[trigger] resolve_words(names, ts)->Ok_0[a] != #[trigger] resolve_words(
                names,
                ts,
            )->Ok_0[b],
    decreases ts.len(),
{
    if ts.len() > 0 {
        let rest = ts.drop_last();
        lemma_resolve_words_distinct(names, rest);
        let is = resolve_words(names, rest)->Ok_0;
        let t = ts.last();
        lemma_last_index(names, t);
        let r = resolve_words(names, ts)->Ok_0;
        assert(r == is.push(last_index(names, t) as Count));
        assert forall|k: int| 0 <= k < ts.len() implies names[#[trigger] r[k] as int] == ts[k] by {
            if k < rest.len() {
                assert(r[k] == is[k]);
                assert(rest[k] == ts[k]);
            } else {
                assert(last_index(names, t) >= 0);
                assert(r[k] as int == last_index(names, t));
            }
        }
        assert forall|a: int, b: int| 0 <= a < b < ts.len() implies #[trigger] r[a] != #[trigger] r[b] by {
            if b == ts.len() - 1 {
                assert(names[r[a] as int] == ts[a]);
                assert(rest[a] == ts[a]);
                assert(rest.contains(ts[a]));
            } else {
                assert(r[a] == is[a] && r[b] == is[b]);
            }
        }
    }
}

/// No option that the words of options resolve to names an item twice.
pub proof fn lemma_resolve_options_distinct(names: Seq<Seq<char>>, os: Seq<Seq<Seq<char>>>)
    requires
        resolve_options(names, os) is Ok,
        names.len() <= usize::MAX,
    ensures
        forall|o: int, a: int, b: int|
            0 <= o < resolve_options(names, os)->Ok_0.len() && 0 <= a < b < resolve_options(names, os)->Ok_0[o].len()
                ==> #[trigger] resolve_options(names, os)->Ok_0[o][a] != #[trigger] resolve_options(names, os)->Ok_0[o][b],
    decreases os.len(),
{
    if os.len() > 0 {
        lemma_resolve_options_distinct(names, os.drop_last());
        lemma_resolve_words_distinct(names, os.last());
        let r0 = resolve_options(names, os.drop_last())->Ok_0;
        let r = resolve_options(names, os)->Ok_0;
        assert(r == r0.push(resolve_words(names, os.last())->Ok_0));
        assert forall|o: int, a: int, b: int| 0 <= o < r.len() && 0 <= a < b < r[o].len() implies #[trigger] r[o][a]
            != #[trigger] r[o][b] by {
            if o < r0.len() {
                assert(r[o] == r0[o]);
            }
        }
    }
}

/// The items of every option, the first failing option deciding.
pub open spec fn resolve_options(names: Seq<Seq<char>>, os: Seq<Seq<Seq<char>>>) -> Result<
    Seq<Seq<Count>>,
    Error,
>
    decreases os.len(),
{
    if os.len() == 0 {
        Ok(Seq::empty())
    } else {
        match resolve_options(names, os.drop_last()) {
            Err(e) => Err(e),
            Ok(r) => match resolve_words(names, os.last()) {
                Err(e) => Err(e),
                Ok(is) => Ok(r.push(is)),
            },
        }
    }
}

/// Options of items, each entry of color `0`.
pub open spec fn zero_colored(is: Seq<Seq<Count>>) -> Seq<Seq<(Count, Data)>> {
    is.map_values(|v: Seq<Count>| v.map_values(|c: Count| (c, 0isize)))
}

/// The items of vectors of indices.
pub open spec fn index_views(os: Seq<Vec<Count>>) -> Seq<Seq<Count>> {
    os.map_values(|v: Vec<Count>| v@)
}

pub proof fn lemma_resolve_words_bound(names: Seq<Seq<char>>, ts: Seq<Seq<char>>)
    ensures
        resolve_words(names, ts) matches Ok(is) ==> is.len() == ts.len() && forall|k: int|
            0 <= k < is.len() ==> #[trigger] is[k] < names.len(),
    decreases ts.len(),
{
    if ts.len() > 0 {
        lemma_resolve_words_bound(names, ts.drop_last());
        lemma_last_index(names, ts.last());
    }
}

pub proof fn lemma_resolve_options_bound(names: Seq<Seq<char>>, os: Seq<Seq<Seq<char>>>)
    ensures
        resolve_options(names, os) matches Ok(r) ==> r.len() == os.len() && forall|o: int, k: int|
            0 <= o < r.len() && 0 <= k < r[o].len() ==> #[trigger] r[o][k] < names.len(),
    decreases os.len(),
{
    if os.len() > 0 {
        lemma_resolve_options_bound(names, os.drop_last());
        lemma_resolve_words_bound(names, os.last());
    }
}

/// An error on a prefix of the words is the error on all of them.
pub proof fn lemma_resolve_words_err(names: Seq<Seq<char>>, ts: Seq<Seq<char>>, k: int, e: Error)
    requires
        0 <= k <= ts.len(),
        resolve_words(names, ts.take(k)) == Err::<Seq<Count>, Error>(e),
    ensures
        resolve_words(names, ts) == Err::<Seq<Count>, Error>(e),
    decreases ts.len() - k,
{
    if k == ts.len() {
        assert(ts.take(k) =~= ts);
    } else {
        assert(ts.take(k + 1).drop_last() =~= ts.take(k));
        lemma_resolve_words_err(names, ts, k + 1, e);
    }
}

/// An error on a prefix of the options is the error on all of them.
pub proof fn lemma_resolve_options_err(
    names: Seq<Seq<char>>,
    os: Seq<Seq<Seq<char>>>,
    k: int,
    e: Error,
)
    requires
        0 <= k <= os.len(),
        resolve_options(names, os.take(k)) == Err::<Seq<Seq<Count>>, Error>(e),
    ensures
        resolve_options(names, os) == Err::<Seq<Seq<Count>>, Error>(e),
    decreases os.len() - k,
{
    if k == os.len() {
        assert(os.take(k) =~= os);
    } else {
        assert(os.take(k + 1).drop_last() =~= os.take(k));
        lemma_resolve_options_err(names, os, k + 1, e);
    }
}

/// The items of the words of an option.
pub fn resolve_option(names: &Vec<String>, ts: &Vec<String>) -> (r: Result<Vec<Count>, Error>)
    ensures
        match r {
            Ok(is) => resolve_words(string_views(names@), string_views(ts@)) == Ok::<
                Seq<Count>,
                Error,
            >(is@),
            Err(e) => resolve_words(string_views(names@), string_views(ts@)) == Err::<
                Seq<Count>,
                Error,
            >(e),
        },
{
    let ghost ns = string_views(names@);
    let ghost ws = string_views(ts@);
    let mut is: Vec<Count> = Vec::new();
    let mut k: usize = 0;
    proof {
        assert(ws.take(0) =~= Seq::<Seq<char>>::empty());
    }
    while k < ts.len()
        invariant
            ns == string_views(names@),
            ws == string_views(ts@),
            k <= ts@.len(),
            resolve_words(ns, ws.take(k as int)) == Ok::<Seq<Count>, Error>(is@),
        decreases ts@.len() - k,
    {
        proof {
            assert(ws.take(k + 1).drop_last() =~= ws.take(k as int));
            assert(ws.take(k + 1).last() == ts@[k as int]@);
        }
        match find_last(names, &ts[k]) {
            None => {
                proof {
                    lemma_resolve_words_err(ns, ws, k + 1, Error::InvalidItem);
                }
                return Err(Error::InvalidItem);
            },
            Some(j) => {
                if seen_before(ts, k, &ts[k]) {
                    proof {
                        lemma_resolve_words_err(ns, ws, k + 1, Error::DuplicateItemsInOption);
                    }
                    return Err(Error::DuplicateItemsInOption);
                }
                is.push(j);
            },
        }
        k += 1;
    }
    proof {
        assert(ws.take(k as int) =~= ws);
    }
    Ok(is)
}

/// The items of the words of every option.
pub fn resolve_all(names: &Vec<String>, os: &Vec<Vec<String>>) -> (r: Result<Vec<Vec<Count>>, Error>)
    ensures
        match r {
            Ok(is) => resolve_options(
                string_views(names@),
                os@.map_values(|o: Vec<String>| string_views(o@)),
            ) == Ok::<Seq<Seq<Count>>, Error>(index_views(is@)),
            Err(e) => resolve_options(
                string_views(names@),
                os@.map_values(|o: Vec<String>| string_views(o@)),
            ) == Err::<Seq<Seq<Count>>, Error>(e),
        },
{
    let ghost ns = string_views(names@);
    let ghost wss = os@.map_values(|o: Vec<String>| string_views(o@));
    let mut r: Vec<Vec<Count>> = Vec::new();
    let mut k: usize = 0;
    proof {
        assert(wss.take(0) =~= Seq::<Seq<Seq<char>>>::empty());
        assert(index_views(r@) =~= Seq::<Seq<Count>>::empty());
    }
    while k < os.len()
        invariant
            ns == string_views(names@),
            wss == os@.map_values(|o: Vec<String>| string_views(o@)),
            k <= os@.len(),
            resolve_options(ns, wss.take(k as int)) == Ok::<Seq<Seq<Count>>, Error>(index_views(r@)),
        decreases os@.len() - k,
    {
        proof {
            assert(wss.take(k + 1).drop_last() =~= wss.take(k as int));
            assert(wss.take(k + 1).last() == string_views(os@[k as int]@));
        }
        match resolve_option(names, &os[k]) {
            Err(e) => {
                proof {
                    lemma_resolve_options_err(ns, wss, k + 1, e);
                }
                return Err(e);
            },
            Ok(is) => {
                let ghost old_r = r@;
                r.push(is);
                proof {
                    assert(index_views(r@) =~= index_views(old_r).push(index_views(r@).last()));
                }
            },
        }
        k += 1;
    }
    proof {
        assert(wss.take(k as int) =~= wss);
    }
    Ok(r)
}

/// Word `k` of the option `ts` as an item and a color: a name, then
/// optionally `:` and a color of one ASCII character. Fails with
/// `TooManyColorSeparators` for two `:`, `ColorNotSingleChar` for a color
/// that is not one byte, `InvalidItem` for a name of no item,
/// `DuplicateItemsInOption` for a word met before in the option, and
/// `ColorOnPrimary` for a color on one of the first `np` items.
pub open spec fn color_word(names: Seq<Seq<char>>, np: int, ts: Seq<Seq<char>>, k: int) -> Result<
    (Count, Data),
    Error,
> {
    let t = ts[k];
    let parts = segments(t, ':');
    if parts.len() > 2 {
        Err(Error::TooManyColorSeparators)
    } else if parts.len() == 2 && !(parts[1].len() == 1 && (parts[1][0] as u32) < 128) {
        Err(Error::ColorNotSingleChar)
    } else {
        let j = last_index(names, parts[0]);
        if j < 0 {
            Err(Error::InvalidItem)
        } else if ts.take(k).contains(t) {
            Err(Error::DuplicateItemsInOption)
        } else if j < np && parts.len() == 2 {
            Err(Error::ColorOnPrimary)
        } else {
            Ok(
                (
                    j as Count,
                    if parts.len() == 2 {
                        (parts[1][0] as u32) as Data
                    } else {
                        0
                    },
                ),
            )
        }
    }
}

/// The first `k` words of the option `ts` as items and colors.
pub open spec fn color_words(names: Seq<Seq<char>>, np: int, ts: Seq<Seq<char>>, k: nat) -> Result<
    Seq<(Count, Data)>,
    Error,
>
    decreases k,
{
    if k == 0 {
        Ok(Seq::empty())
    } else {
        match color_words(names, np, ts, (k - 1) as nat) {
            Err(e) => Err(e),
            Ok(r) => match color_word(names, np, ts, k - 1) {
                Err(e) => Err(e),
                Ok(x) => Ok(r.push(x)),
            },
        }
    }
}

/// The colors that the words of an option give are not negative, and
/// positive only for items from `np` on.
pub proof fn lemma_color_words_ok(names: Seq<Seq<char>>, np: int, ts: Seq<Seq<char>>, k: nat)
    requires
        color_words(names, np, ts, k) is Ok,
        names.len() <= usize::MAX,
    ensures
        forall|m: int|
            0 <= m < color_words(names, np, ts, k)->Ok_0.len() ==> #[trigger] color_words(names, np, ts, k)->Ok_0[m].1
                >= 0 && (color_words(names, np, ts, k)->Ok_0[m].1 > 0 ==> color_words(names, np, ts, k)->Ok_0[m].0
                >= np),
    decreases k,
{
    if k > 0 {
        lemma_color_words_ok(names, np, ts, (k - 1) as nat);
        let r0 = color_words(names, np, ts, (k - 1) as nat)->Ok_0;
        let w = color_word(names, np, ts, k - 1)->Ok_0;
        let r = color_words(names, np, ts, k)->Ok_0;
        assert(r == r0.push(w));
        let parts = segments(ts[k - 1], ':');
        lemma_last_index(names, parts[0]);
        assert(w.1 >= 0 && (w.1 > 0 ==> w.0 >= np)) by {
            if parts.len() == 2 {
                assert(last_index(names, parts[0]) >= np);
            }
        }
        assert forall|m: int| 0 <= m < r.len() implies #[trigger] r[m].1 >= 0 && (r[m].1 > 0 ==> r[m].0 >= np) by {
            if m < r0.len() {
                assert(r[m] == r0[m]);
            }
        }
    }
}

/// The colors of options read from words are not negative, and positive
/// only for items from `np` on.
pub proof fn lemma_color_options_ok(names: Seq<Seq<char>>, np: int, os: Seq<Seq<Seq<char>>>)
    requires
        color_options(names, np, os) is Ok,
        names.len() <= usize::MAX,
    ensures
        forall|o: int, m: int|
            0 <= o < color_options(names, np, os)->Ok_0.len() && 0 <= m < color_options(names, np, os)->Ok_0[o].len()
                ==> #[trigger] color_options(names, np, os)->Ok_0[o][m].1 >= 0 && (color_options(names, np, os)->Ok_0[o][m].1
                > 0 ==> color_options(names, np, os)->Ok_0[o][m].0 >= np),
    decreases os.len(),
{
    if os.len() > 0 {
        lemma_color_options_ok(names, np, os.drop_last());
        lemma_color_words_ok(names, np, os.last(), os.last().len());
        let r0 = color_options(names, np, os.drop_last())->Ok_0;
        let r = color_options(names, np, os)->Ok_0;
        assert(r == r0.push(color_words(names, np, os.last(), os.last().len())->Ok_0));
        assert forall|o: int, m: int| 0 <= o < r.len() && 0 <= m < r[o].len() implies #[trigger] r[o][m].1 >= 0 && (
        r[o][m].1 > 0 ==> r[o][m].0 >= np) by {
            if o < r0.len() {
                assert(r[o] == r0[o]);
            }
        }
    }
}

/// Every option as items and colors, the first failing word deciding.
pub open spec fn color_options(names: Seq<Seq<char>>, np: int, os: Seq<Seq<Seq<char>>>) -> Result<
    Seq<Seq<(Count, Data)>>,
    Error,
>
    decreases os.len(),
{
    if os.len() == 0 {
        Ok(Seq::empty())
    } else {
        match color_options(names, np, os.drop_last()) {
            Err(e) => Err(e),
            Ok(r) => match color_words(names, np, os.last(), os.last().len()) {
                Err(e) => Err(e),
                Ok(is) => Ok(r.push(is)),
            },
        }
    }
}

pub proof fn lemma_color_words_err(names: Seq<Seq<char>>, np: int, ts: Seq<Seq<char>>, k: nat, m: nat, e: Error)
    requires
        k <= m,
        color_words(names, np, ts, k) == Err::<Seq<(Count, Data)>, Error>(e),
    ensures
        color_words(names, np, ts, m) == Err::<Seq<(Count, Data)>, Error>(e),
    decreases m - k,
{
    if k < m {
        lemma_color_words_err(names, np, ts, k, (m - 1) as nat, e);
    }
}

pub proof fn lemma_color_options_err(
    names: Seq<Seq<char>>,
    np: int,
    os: Seq<Seq<Seq<char>>>,
    k: int,
    e: Error,
)
    requires
        0 <= k <= os.len(),
        color_options(names, np, os.take(k)) == Err::<Seq<Seq<(Count, Data)>>, Error>(e),
    ensures
        color_options(names, np, os) == Err::<Seq<Seq<(Count, Data)>>, Error>(e),
    decreases os.len() - k,
{
    if k == os.len() {
        assert(os.take(k) =~= os);
    } else {
        assert(os.take(k + 1).drop_last() =~= os.take(k));
        lemma_color_options_err(names, np, os, k + 1, e);
    }
}

pub proof fn lemma_color_words_bound(names: Seq<Seq<char>>, np: int, ts: Seq<Seq<char>>, k: nat)
    ensures
        color_words(names, np, ts, k) matches Ok(is) ==> is.len() == k && forall|j: int|
            0 <= j < is.len() ==> #[trigger] is[j].0 < names.len(),
    decreases k,
{
    if k > 0 {
        lemma_color_words_bound(names, np, ts, (k - 1) as nat);
        lemma_last_index(names, segments(ts[k - 1], ':')[0]);
    }
}

pub proof fn lemma_color_options_bound(names: Seq<Seq<char>>, np: int, os: Seq<Seq<Seq<char>>>)
    ensures
        color_options(names, np, os) matches Ok(r) ==> r.len() == os.len() && forall|o: int, k: int|
            0 <= o < r.len() && 0 <= k < r[o].len() ==> #[trigger] r[o][k].0 < names.len(),
    decreases os.len(),
{
    if os.len() > 0 {
        lemma_color_options_bound(names, np, os.drop_last());
        lemma_color_words_bound(names, np, os.last(), os.last().len());
    }
}

/// Word `k` of the option `ts` as an item and a color.
pub fn color_item(names: &Vec<String>, np: usize, ts: &Vec<String>, k: usize) -> (r: Result<(Count, Data), Error>)
    requires
        k < ts@.len(),
    ensures
        r == color_word(string_views(names@), np as int, string_views(ts@), k as int),
{
    let cs = chars_of(ts[k].as_str());
    let parts = split_at_char(&cs, ':');
    proof {
        lemma_segments_len(cs@, ':');
        assert(string_views(ts@)[k as int] == cs@);
    }
    if parts.len() > 2 {
        return Err(Error::TooManyColorSeparators);
    }
    if parts.len() == 2 && !(parts[1].len() == 1 && (parts[1][0] as u32) < 128) {
        return Err(Error::ColorNotSingleChar);
    }
    let name = string_of(&parts[0]);
    match find_last(names, &name) {
        None => Err(Error::InvalidItem),
        Some(j) => {
            if seen_before(ts, k, &ts[k]) {
                return Err(Error::DuplicateItemsInOption);
            }
            if j < np && parts.len() == 2 {
                return Err(Error::ColorOnPrimary);
            }
            let color: Data = if parts.len() == 2 {
                (parts[1][0] as u32) as Data
            } else {
                0
            };
            Ok((j, color))
        },
    }
}

/// The words of the option `ts` as items and colors.
pub fn color_option(names: &Vec<String>, np: usize, ts: &Vec<String>) -> (r: Result<Vec<(Count, Data)>, Error>)
    ensures
        match r {
            Ok(is) => color_words(string_views(names@), np as int, string_views(ts@), ts@.len())
                == Ok::<Seq<(Count, Data)>, Error>(is@),
            Err(e) => color_words(string_views(names@), np as int, string_views(ts@), ts@.len())
                == Err::<Seq<(Count, Data)>, Error>(e),
        },
{
    let ghost ns = string_views(names@);
    let ghost ws = string_views(ts@);
    let mut is: Vec<(Count, Data)> = Vec::new();
    let mut k: usize = 0;
    while k < ts.len()
        invariant
            ns == string_views(names@),
            ws == string_views(ts@),
            k <= ts@.len(),
            color_words(ns, np as int, ws, k as nat) == Ok::<Seq<(Count, Data)>, Error>(is@),
        decreases ts@.len() - k,
    {
        match color_item(names, np, ts, k) {
            Err(e) => {
                proof {
                    lemma_color_words_err(ns, np as int, ws, (k + 1) as nat, ts@.len(), e);
                }
                return Err(e);
            },
            Ok(x) => {
                is.push(x);
            },
        }
        k += 1;
    }
    Ok(is)
}

/// The words of every option as items and colors.
pub fn color_all(names: &Vec<String>, np: usize, os: &Vec<Vec<String>>) -> (r: Result<Vec<Vec<(Count, Data)>>, Error>)
    ensures
        match r {
            Ok(is) => color_options(
                string_views(names@),
                np as int,
                os@.map_values(|o: Vec<String>| string_views(o@)),
            ) == Ok::<Seq<Seq<(Count, Data)>>, Error>(is@.map_values(|v: Vec<(Count, Data)>| v@)),
            Err(e) => color_options(
                string_views(names@),
                np as int,
                os@.map_values(|o: Vec<String>| string_views(o@)),
            ) == Err::<Seq<Seq<(Count, Data)>>, Error>(e),
        },
{
    let ghost ns = string_views(names@);
    let ghost wss = os@.map_values(|o: Vec<String>| string_views(o@));
    let mut r: Vec<Vec<(Count, Data)>> = Vec::new();
    let mut k: usize = 0;
    proof {
        assert(wss.take(0) =~= Seq::<Seq<Seq<char>>>::empty());
        assert(r@.map_values(|v: Vec<(Count, Data)>| v@) =~= Seq::<Seq<(Count, Data)>>::empty());
    }
    while k < os.len()
        invariant
            ns == string_views(names@),
            wss == os@.map_values(|o: Vec<String>| string_views(o@)),
            k <= os@.len(),
            color_options(ns, np as int, wss.take(k as int)) == Ok::<Seq<Seq<(Count, Data)>>, Error>(
                r@.map_values(|v: Vec<(Count, Data)>| v@),
            ),
        decreases os@.len() - k,
    {
        proof {
            assert(wss.take(k + 1).drop_last() =~= wss.take(k as int));
            assert(wss.take(k + 1).last() == string_views(os@[k as int]@));
        }
        match color_option(names, np, &os[k]) {
            Err(e) => {
                proof {
                    lemma_color_options_err(ns, np as int, wss, k + 1, e);
                }
                return Err(e);
            },
            Ok(is) => {
                let ghost old_r = r@;
                r.push(is);
                proof {
                    assert(r@.map_values(|v: Vec<(Count, Data)>| v@) =~= old_r.map_values(
                        |v: Vec<(Count, Data)>| v@,
                    ).push(is@));
                }
            },
        }
        k += 1;
    }
    proof {
        assert(wss.take(k as int) =~= wss);
    }
    Ok(r)
}

/// Whether `c` is a decimal digit.
pub open spec fn is_digit(c: char) -> bool {
    48 <= (c as u32) <= 57
}

/// The value of the decimal digits `s`.
pub open spec fn digits_value(s: Seq<char>) -> int
    decreases s.len(),
{
    if s.len() == 0 {
        0
    } else {
        digits_value(s.drop_last()) * 10 + ((s.last() as u32) - 48)
    }
}

/// `s` without its sign, if it starts with `+` or `-`.
pub open spec fn unsigned_part(s: Seq<char>) -> Seq<char> {
    if s.len() > 0 && (s[0] == '-' || s[0] == '+') {
        s.drop_first()
    } else {
        s
    }
}

/// Every character of `d` is a decimal digit.
pub open spec fn all_digits(d: Seq<char>) -> bool {
    forall|i: int| 0 <= i < d.len() ==> is_digit(#[trigger] d[i])
}

/// The number that `str::parse::<isize>` reads from `s`: an optional
/// sign `+` or `-`, then at least one decimal digit and nothing else, of a
/// value in the range of `isize`.
pub open spec fn parse_int(s: Seq<char>) -> Option<isize> {
    let d = unsigned_part(s);
    let v = if s.len() > 0 && s[0] == '-' {
        -digits_value(d)
    } else {
        digits_value(d)
    };
    if d.len() == 0 || !all_digits(d) {
        None
    } else if isize::MIN <= v <= isize::MAX {
        Some(v as isize)
    } else {
        None
    }
}

pub proof fn lemma_digits_mono(s: Seq<char>, k: int)
    requires
        0 <= k <= s.len(),
        forall|i: int| 0 <= i < s.len() ==> is_digit(#[trigger] s[i]),
    ensures
        digits_value(s) >= digits_value(s.take(k)) >= 0,
    decreases s.len(),
{
    if k == s.len() {
        assert(s.take(k) =~= s);
        if s.len() > 0 {
            let t = s.drop_last();
            assert forall|i: int| 0 <= i < t.len() implies is_digit(#[trigger] t[i]) by {
                assert(t[i] == s[i]);
            }
            lemma_digits_mono(t, 0);
            assert(is_digit(s[s.len() - 1]));
        }
    } else {
        let t = s.drop_last();
        assert forall|i: int| 0 <= i < t.len() implies is_digit(#[trigger] t[i]) by {
            assert(t[i] == s[i]);
        }
        lemma_digits_mono(t, k);
        assert(t.take(k) =~= s.take(k));
        assert(is_digit(s[s.len() - 1]));
    }
}

/// The number written in `s`, as `str::parse::<isize>` reads it.
pub fn parse_isize(s: &Vec<char>) -> (r: Option<isize>)
    ensures
        r == parse_int(s@),
{
    let n = s.len();
    let signed = n > 0 && (s[0] == '-' || s[0] == '+');
    let neg = n > 0 && s[0] == '-';
    let start: usize = if signed {
        1
    } else {
        0
    };
    let ghost d = if signed {
        s@.drop_first()
    } else {
        s@
    };
    proof {
        assert(d =~= s@.subrange(start as int, n as int));
    }
    if start == n {
        return None;
    }
    let bound: i128 = (isize::MAX as i128) + 1;
    let mut acc: i128 = 0;
    let mut k: usize = start;
    proof {
        assert(d.take(0) =~= Seq::<char>::empty());
    }
    while k < n
        invariant
            n == s@.len(),
            start <= k <= n,
            d =~= s@.subrange(start as int, n as int),
            d == unsigned_part(s@),
            acc == digits_value(d.take(k - start)),
            0 <= acc <= bound,
            bound == isize::MAX + 1,
            forall|i: int| 0 <= i < k - start ==> is_digit(#[trigger] d[i]),
        decreases n - k,
    {
        let c = s[k];
        let u = c as u32;
        proof {
            assert(d[k - start] == c);
        }
        if !(48 <= u && u <= 57) {
            proof {
                assert(!is_digit(d[k - start]));
                assert(!all_digits(d));
            }
            return None;
        }
        proof {
            assert(d.take(k - start + 1).drop_last() =~= d.take(k - start));
            assert(d.take(k - start + 1).last() == c);
        }
        acc = acc * 10 + ((u - 48) as i128);
        k += 1;
        if acc > bound {
            proof {
                if all_digits(d) {
                    lemma_digits_mono(d, k - start);
                    assert(digits_value(d) > isize::MAX + 1);
                }
            }
            return None;
        }
    }
    proof {
        assert(d.take(k - start) =~= d);
    }
    if neg {
        Some((-acc) as isize)
    } else if acc <= isize::MAX as i128 {
        Some(acc as isize)
    } else {
        None
    }
}

pub proof fn lemma_segments_contains(s: Seq<char>, sep: char)
    ensures
        s.contains(sep) ==> segments(s, sep).len() >= 2,
        segments(s, sep).len() >= 1,
    decreases s.len(),
{
    if s.len() > 0 {
        lemma_segments_contains(s.drop_last(), sep);
        if s.contains(sep) && s.last() != sep {
            let i = choose|i: int| 0 <= i < s.len() && s[i] == sep;
            assert(s.drop_last()[i] == sep);
        }
    }
}

/// The name and the bounds, as text, of a primary item with
/// multiplicities: `name`, `v|name` or `u:v|name`. Fails with
/// `TooManyMultiplicitySeparators` for two `|` and
/// `TooManyBoundSeparators` for two `:`.
pub open spec fn bound_texts(t: Seq<char>) -> Result<(Seq<char>, Seq<char>, Seq<char>), Error> {
    if t.contains('|') {
        let parts = segments(t, '|');
        if parts.len() > 2 {
            Err(Error::TooManyMultiplicitySeparators)
        } else {
            let data = parts[0];
            if data.contains(':') {
                let dd = segments(data, ':');
                if dd.len() > 2 {
                    Err(Error::TooManyBoundSeparators)
                } else {
                    Ok((parts[1], dd[0], dd[1]))
                }
            } else {
                Ok((parts[1], data, data))
            }
        }
    } else {
        Ok((t, seq!['1'], seq!['1']))
    }
}

/// The name and the bounds of a primary item with multiplicities; a bound
/// that is no number fails with `NonNumericBound`.
pub open spec fn bound_item(t: Seq<char>) -> Result<(Seq<char>, isize, isize), Error> {
    match bound_texts(t) {
        Err(e) => Err(e),
        Ok((name, u, v)) => match (parse_int(u), parse_int(v)) {
            (Some(a), Some(b)) => Ok((name, a, b)),
            _ => Err(Error::NonNumericBound),
        },
    }
}

/// The names and bounds of the primary items `ts`, the first failing item
/// deciding.
pub open spec fn bound_items(ts: Seq<Seq<char>>) -> Result<Seq<(Seq<char>, isize, isize)>, Error>
    decreases ts.len(),
{
    if ts.len() == 0 {
        Ok(Seq::empty())
    } else {
        match bound_items(ts.drop_last()) {
            Err(e) => Err(e),
            Ok(r) => match bound_item(ts.last()) {
                Err(e) => Err(e),
                Ok(x) => Ok(r.push(x)),
            },
        }
    }
}

pub proof fn lemma_bound_items_err(ts: Seq<Seq<char>>, k: int, e: Error)
    requires
        0 <= k <= ts.len(),
        bound_items(ts.take(k)) == Err::<Seq<(Seq<char>, isize, isize)>, Error>(e),
    ensures
        bound_items(ts) == Err::<Seq<(Seq<char>, isize, isize)>, Error>(e),
    decreases ts.len() - k,
{
    if k == ts.len() {
        assert(ts.take(k) =~= ts);
    } else {
        assert(ts.take(k + 1).drop_last() =~= ts.take(k));
        lemma_bound_items_err(ts, k + 1, e);
    }
}

/// Whether `s` holds `c`.
pub fn holds(s: &Vec<char>, c: char) -> (r: bool)
    ensures
        r == s@.contains(c),
{
    let mut k: usize = 0;
    while k < s.len()
        invariant
            k <= s@.len(),
            forall|j: int| 0 <= j < k ==> s@[j] != c,
        decreases s@.len() - k,
    {
        if s[k] == c {
            proof {
                assert(s@[k as int] == c);
            }
            return true;
        }
        k += 1;
    }
    false
}

/// The name and bounds of the primary item `t`.
pub fn read_bound_item(t: &String) -> (r: Result<(String, isize, isize), Error>)
    ensures
        match r {
            Ok((name, u, v)) => bound_item(t@) == Ok::<(Seq<char>, isize, isize), Error>(
                (name@, u, v),
            ),
            Err(e) => bound_item(t@) == Err::<(Seq<char>, isize, isize), Error>(e),
        },
{
    let cs = chars_of(t.as_str());
    let (name, us, vs) = if holds(&cs, '|') {
        let parts = split_at_char(&cs, '|');
        proof {
            lemma_segments_contains(cs@, '|');
        }
        if parts.len() > 2 {
            return Err(Error::TooManyMultiplicitySeparators);
        }
        let data = &parts[0];
        if holds(data, ':') {
            let dd = split_at_char(data, ':');
            proof {
                lemma_segments_contains(data@, ':');
            }
            if dd.len() > 2 {
                return Err(Error::TooManyBoundSeparators);
            }
            (parts[1].clone(), dd[0].clone(), dd[1].clone())
        } else {
            (parts[1].clone(), data.clone(), data.clone())
        }
    } else {
        let mut one: Vec<char> = Vec::new();
        one.push('1');
        proof {
            assert(one@ =~= seq!['1']);
        }
        (cs.clone(), one.clone(), one)
    };
    match (parse_isize(&us), parse_isize(&vs)) {
        (Some(a), Some(b)) => Ok((string_of(&name), a, b)),
        _ => Err(Error::NonNumericBound),
    }
}

/// The code points of the White_Space property of Unicode: tab, line
/// feed, vertical tab, form feed, carriage return, space, next line,
/// no-break space, ogham space mark, the spaces U+2000 to U+200A, line and
/// paragraph separators, narrow no-break space, medium mathematical space
/// and ideographic space.
pub open spec fn white_space_points() -> Set<u32> {
    set![
        0x09u32, 0x0A, 0x0B, 0x0C, 0x0D, 0x20, 0x85, 0xA0, 0x1680, 0x2000, 0x2001, 0x2002,
        0x2003, 0x2004, 0x2005, 0x2006, 0x2007, 0x2008, 0x2009, 0x200A, 0x2028, 0x2029, 0x202F,
        0x205F, 0x3000,
    ]
}

/// White space, as the text of a problem is read, is exactly the
/// White_Space characters of Unicode; tab among them.
pub proof fn law_white_space(c: char)
    ensures
        is_space(c) <==> white_space_points().contains(c as u32),
{
}

/// `s` holds no White_Space character.
pub open spec fn no_white(s: Seq<char>) -> bool {
    forall|i: int| 0 <= i < s.len() ==> !white_space_points().contains(#[trigger] s[i] as u32)
}

proof fn lemma_pieces_len(s: Seq<char>)
    ensures
        pieces(s).len() >= 1,
    decreases s.len(),
{
    if s.len() > 0 {
        lemma_pieces_len(s.drop_last());
    }
}

/// Appending characters that are no white space extends the last piece.
proof fn lemma_pieces_extend(p: Seq<char>, y: Seq<char>)
    requires
        no_white(y),
    ensures
        pieces(p + y) == pieces(p).update(pieces(p).len() - 1, pieces(p).last() + y),
    decreases y.len(),
{
    lemma_pieces_len(p);
    if y.len() == 0 {
        assert(p + y =~= p);
        assert(pieces(p).last() + y =~= pieces(p).last());
        assert(pieces(p).update(pieces(p).len() - 1, pieces(p).last()) =~= pieces(p));
    } else {
        let y0 = y.drop_last();
        assert(no_white(y0)) by {
            assert forall|i: int| 0 <= i < y0.len() implies !white_space_points().contains(
                #[trigger] y0[i] as u32,
            ) by {
                assert(y0[i] == y[i]);
            }
        }
        lemma_pieces_extend(p, y0);
        assert((p + y).drop_last() =~= p + y0);
        assert((p + y).last() == y.last());
        assert(!white_space_points().contains(y[y.len() - 1] as u32));
        law_white_space(y.last());
        assert(pieces(p).last() + y0 + seq![y.last()] =~= pieces(p).last() + y);
        lemma_pieces_len(p + y0);
        let r = pieces(p + y0);
        assert(r.last() == pieces(p).last() + y0);
        assert(pieces(p + y) == r.update(r.len() - 1, r.last().push(y.last())));
        assert(r.last().push(y.last()) =~= pieces(p).last() + y);
        assert(pieces(p + y) =~= pieces(p).update(pieces(p).len() - 1, pieces(p).last() + y));
    }
}

/// A White_Space character between two nonempty runs of other characters
/// splits them into two words: the words of a line are its maximal runs of
/// characters that are not White_Space.
pub proof fn law_space_separates(a: Seq<char>, c: char, b: Seq<char>)
    requires
        white_space_points().contains(c as u32),
        a.len() > 0,
        b.len() > 0,
        no_white(a),
        no_white(b),
    ensures
        words(a + seq![c] + b) == seq![a, b],
{
    law_white_space(c);
    let e = Seq::<char>::empty();
    lemma_pieces_extend(e, a);
    assert(e + a =~= a);
    assert(pieces(e) =~= seq![e]);
    assert(pieces(a) =~= seq![a]);
    let ac = a + seq![c];
    assert(ac.drop_last() =~= a);
    assert(pieces(ac) =~= seq![a, e]);
    lemma_pieces_extend(ac, b);
    assert(e + b =~= b);
    assert(pieces(ac + b) =~= seq![a, b]);
    let w = seq![a, b];
    assert(w.drop_last() =~= seq![a]);
    assert(seq![a].drop_last() =~= Seq::<Seq<char>>::empty());
    let e2 = Seq::<Seq<char>>::empty();
    assert(nonempty(e2) == e2);
    assert(seq![a].last() == a);
    assert(nonempty(seq![a]) == nonempty(e2).push(a));
    assert(nonempty(seq![a]) =~= seq![a]);
    assert(w.last() == b);
    assert(nonempty(w) =~= seq![a, b]);
}

/// Appending characters other than `sep` extends the last piece.
proof fn lemma_segments_extend(p: Seq<char>, y: Seq<char>, sep: char)
    requires
        !y.contains(sep),
    ensures
        segments(p + y, sep) == segments(p, sep).update(
            segments(p, sep).len() - 1,
            segments(p, sep).last() + y,
        ),
    decreases y.len(),
{
    lemma_segments_len(p, sep);
    let sp = segments(p, sep);
    if y.len() == 0 {
        assert(p + y =~= p);
        assert(sp.last() + y =~= sp.last());
        assert(sp.update(sp.len() - 1, sp.last()) =~= sp);
    } else {
        let y0 = y.drop_last();
        assert(!y0.contains(sep)) by {
            if y0.contains(sep) {
                let i = choose|i: int| 0 <= i < y0.len() && y0[i] == sep;
                assert(y[i] == sep);
            }
        }
        lemma_segments_extend(p, y0, sep);
        assert((p + y).drop_last() =~= p + y0);
        assert((p + y).last() == y.last());
        assert(y[y.len() - 1] != sep);
        lemma_segments_len(p + y0, sep);
        let r = segments(p + y0, sep);
        assert(r.last() == sp.last() + y0);
        assert(segments(p + y, sep) == r.update(r.len() - 1, r.last().push(y.last())));
        assert(r.last().push(y.last()) =~= sp.last() + y);
        assert(segments(p + y, sep) =~= sp.update(sp.len() - 1, sp.last() + y));
    }
}

/// Text without `sep` is one piece.
proof fn lemma_segments_one(a: Seq<char>, sep: char)
    requires
        !a.contains(sep),
    ensures
        segments(a, sep) == seq![a],
{
    let e = Seq::<char>::empty();
    lemma_segments_extend(e, a, sep);
    assert(e + a =~= a);
    assert(segments(e, sep) =~= seq![e]);
    assert(segments(a, sep) =~= seq![a]);
}

/// Text with one `sep` is the two pieces around it.
proof fn lemma_segments_two(a: Seq<char>, b: Seq<char>, sep: char)
    requires
        !a.contains(sep),
        !b.contains(sep),
    ensures
        segments(a + seq![sep] + b, sep) == seq![a, b],
        (a + seq![sep] + b).contains(sep),
{
    let e = Seq::<char>::empty();
    lemma_segments_one(a, sep);
    let ac = a + seq![sep];
    assert(ac.drop_last() =~= a);
    assert(ac.last() == sep);
    assert(segments(ac, sep) =~= seq![a, e]);
    lemma_segments_extend(ac, b, sep);
    assert(e + b =~= b);
    assert(segments(ac + b, sep) =~= seq![a, b]);
    assert((a + seq![sep] + b)[a.len() as int] == sep);
}

/// The number that the one digit `1` reads as.
proof fn lemma_parse_one()
    ensures
        parse_int(seq!['1']) == Some(1isize),
{
    let d = seq!['1'];
    assert(unsigned_part(d) == d);
    assert(d.drop_last() =~= Seq::<char>::empty());
    assert(digits_value(d.drop_last()) == 0);
    assert(d.last() == '1');
    assert(('1' as u32) == 49);
    assert(digits_value(d) == 1);
    assert(is_digit(d[0]));
    assert(all_digits(d));
}

/// The bounds of a primary item with multiplicities: `v|name` is covered
/// `v` times exactly, both bounds being `v`.
pub proof fn law_bound_exact(v: Seq<char>, name: Seq<char>, n: isize)
    requires
        !v.contains('|'),
        !v.contains(':'),
        !name.contains('|'),
        parse_int(v) == Some(n),
    ensures
        bound_item(v + seq!['|'] + name) == Ok::<(Seq<char>, isize, isize), Error>((name, n, n)),
{
    lemma_segments_two(v, name, '|');
}

/// The bounds of a primary item with multiplicities: `u:v|name` is covered
/// from `u` to `v` times.
pub proof fn law_bound_range(u: Seq<char>, v: Seq<char>, name: Seq<char>, a: isize, b: isize)
    requires
        !u.contains('|'),
        !u.contains(':'),
        !v.contains('|'),
        !v.contains(':'),
        !name.contains('|'),
        parse_int(u) == Some(a),
        parse_int(v) == Some(b),
    ensures
        bound_item(u + seq![':'] + v + seq!['|'] + name) == Ok::<(Seq<char>, isize, isize), Error>(
            (name, a, b),
        ),
{
    let uv = u + seq![':'] + v;
    assert(!uv.contains('|')) by {
        if uv.contains('|') {
            let i = choose|i: int| 0 <= i < uv.len() && uv[i] == '|';
            if i < u.len() {
                assert(u[i] == '|');
            } else if i > u.len() {
                assert(v[i - u.len() - 1] == '|');
            }
        }
    }
    lemma_segments_two(uv, name, '|');
    lemma_segments_two(u, v, ':');
}

/// The bounds of a primary item with multiplicities: a bare `name` is
/// covered exactly once.
pub proof fn law_bound_bare(name: Seq<char>)
    requires
        !name.contains('|'),
    ensures
        bound_item(name) == Ok::<(Seq<char>, isize, isize), Error>((name, 1, 1)),
{
    lemma_parse_one();
}

/// The color of an entry written `name:c` is the code of the character
/// `c`.
pub proof fn law_color_code(
    names: Seq<Seq<char>>,
    np: int,
    ts: Seq<Seq<char>>,
    k: int,
    name: Seq<char>,
    c: char,
    j: Count,
    col: Data,
)
    requires
        0 <= k < ts.len(),
        ts[k] == name + seq![':', c],
        !name.contains(':'),
        color_word(names, np, ts, k) == Ok::<(Count, Data), Error>((j, col)),
    ensures
        col == (c as u32) as Data,
{
    assert(name + seq![':', c] =~= name + seq![':'] + seq![c]);
    if c == ':' {
        let t = name + seq![':'] + seq![c];
        let parts = segments(t, ':');
        lemma_segments_contains(t, ':');
        lemma_segments_one(name, ':');
        let nc = name + seq![':'];
        assert(nc.drop_last() =~= name);
        assert(t.drop_last() =~= nc);
        assert(segments(nc, ':') =~= seq![name, Seq::<char>::empty()]);
        assert(parts.len() == 3);
    } else {
        assert(!seq![c].contains(':')) by {
            if seq![c].contains(':') {
                let i = choose|i: int| 0 <= i < 1 && seq![c][i] == ':';
            }
        }
        lemma_segments_two(name, seq![c], ':');
    }
}

/// Entries `name:c1` and `name:c2` of two options get the same color
/// exactly when they have the same color character: two options can share
/// a secondary item only when they give it the same character.
pub proof fn law_colors_distinct(
    names: Seq<Seq<char>>,
    np: int,
    ts1: Seq<Seq<char>>,
    k1: int,
    ts2: Seq<Seq<char>>,
    k2: int,
    name: Seq<char>,
    c1: char,
    c2: char,
    j1: Count,
    col1: Data,
    j2: Count,
    col2: Data,
)
    requires
        0 <= k1 < ts1.len(),
        0 <= k2 < ts2.len(),
        ts1[k1] == name + seq![':', c1],
        ts2[k2] == name + seq![':', c2],
        !name.contains(':'),
        color_word(names, np, ts1, k1) == Ok::<(Count, Data), Error>((j1, col1)),
        color_word(names, np, ts2, k2) == Ok::<(Count, Data), Error>((j2, col2)),
    ensures
        j1 == j2,
        col1 == col2 <==> c1 == c2,
{
    law_color_code(names, np, ts1, k1, name, c1, j1, col1);
    law_color_code(names, np, ts2, k2, name, c2, j2, col2);
    assert(name + seq![':', c1] =~= name + seq![':'] + seq![c1]);
    assert(name + seq![':', c2] =~= name + seq![':'] + seq![c2]);
    if c1 != ':' && c2 != ':' {
        assert(!seq![c1].contains(':')) by {
            if seq![c1].contains(':') {
                let i = choose|i: int| 0 <= i < 1 && seq![c1][i] == ':';
            }
        }
        assert(!seq![c2].contains(':')) by {
            if seq![c2].contains(':') {
                let i = choose|i: int| 0 <= i < 1 && seq![c2][i] == ':';
            }
        }
        lemma_segments_two(name, seq![c1], ':');
        lemma_segments_two(name, seq![c2], ':');
    }
}

/// Trimming the start of `s + [c]`, for `c` white space.
proof fn lemma_trim_start_push(s: Seq<char>, c: char)
    requires
        is_space(c),
    ensures
        trim_start(s + seq![c]) == (if trim_start(s).len() == 0 {
            Seq::<char>::empty()
        } else {
            trim_start(s) + seq![c]
        }),
    decreases s.len(),
{
    let sc = s + seq![c];
    if s.len() == 0 {
        assert(sc =~= seq![c]);
        assert(sc.drop_first() =~= Seq::<char>::empty());
        assert(trim_start(Seq::<char>::empty()) == Seq::<char>::empty());
        assert(trim_start(sc) == trim_start(sc.drop_first()));
    } else if is_space(s[0]) {
        assert(sc.drop_first() =~= s.drop_first() + seq![c]);
        lemma_trim_start_push(s.drop_first(), c);
        assert(sc[0] == s[0]);
        assert(trim_start(sc) == trim_start(sc.drop_first()));
        assert(trim_start(s) == trim_start(s.drop_first()));
    } else {
        assert(sc[0] == s[0]);
        assert(trim_start(sc) == sc);
        assert(trim_start(s) == s);
    }
}

/// Trimming the end of `s + [c]`, for `c` white space.
proof fn lemma_trim_end_push(s: Seq<char>, c: char)
    requires
        is_space(c),
    ensures
        trim_end(s + seq![c]) == trim_end(s),
{
    assert((s + seq![c]).drop_last() =~= s);
}

/// Leading and trailing White_Space characters, tab among them, are
/// trimmed from every line.
pub proof fn law_trim_space(s: Seq<char>, c: char)
    requires
        white_space_points().contains(c as u32),
    ensures
        trim(seq![c] + s) == trim(s),
        trim(s + seq![c]) == trim(s),
{
    law_white_space(c);
    assert((seq![c] + s).drop_first() =~= s);
    lemma_trim_start_push(s, c);
    let t = trim_start(s);
    if t.len() == 0 {
        assert(trim_end(Seq::<char>::empty()) == Seq::<char>::empty());
    } else {
        lemma_trim_end_push(t, c);
    }
}

/// Appending never lessens the number of pieces.
proof fn lemma_segments_grow(p: Seq<char>, y: Seq<char>, sep: char)
    ensures
        segments(p + y, sep).len() >= segments(p, sep).len(),
    decreases y.len(),
{
    if y.len() == 0 {
        assert(p + y =~= p);
    } else {
        lemma_segments_grow(p, y.drop_last(), sep);
        assert((p + y).drop_last() =~= p + y.drop_last());
        lemma_segments_len(p + y.drop_last(), sep);
    }
}

/// Text in which `sep` occurs twice has at least three pieces.
proof fn lemma_segments_three(a: Seq<char>, b: Seq<char>, sep: char)
    requires
        a.contains(sep),
    ensures
        segments(a + seq![sep] + b, sep).len() >= 3,
        (a + seq![sep] + b).contains(sep),
{
    lemma_segments_contains(a, sep);
    let asep = a + seq![sep];
    assert(asep.drop_last() =~= a);
    assert(asep.last() == sep);
    assert(segments(asep, sep).len() == segments(a, sep).len() + 1);
    lemma_segments_grow(asep, b, sep);
    assert((a + seq![sep] + b)[a.len() as int] == sep);
}

/// The errors of a primary item with multiplicities: a second `|` fails
/// with `TooManyMultiplicitySeparators`; a second `:` in the bounds with
/// `TooManyBoundSeparators`; bounds that are no number with
/// `NonNumericBound`.
pub proof fn law_bound_errors(u: Seq<char>, w: Seq<char>, name: Seq<char>)
    ensures
        u.contains('|') ==> bound_item(u + seq!['|'] + name) == Err::<
            (Seq<char>, isize, isize),
            Error,
        >(Error::TooManyMultiplicitySeparators),
        u.contains(':') && !u.contains('|') && !w.contains('|') && !name.contains('|') ==> bound_item(
            u + seq![':'] + w + seq!['|'] + name,
        ) == Err::<(Seq<char>, isize, isize), Error>(Error::TooManyBoundSeparators),
        !w.contains('|') && !w.contains(':') && !name.contains('|') && parse_int(w) is None
            ==> bound_item(w + seq!['|'] + name) == Err::<(Seq<char>, isize, isize), Error>(
            Error::NonNumericBound,
        ),
{
    if u.contains('|') {
        lemma_segments_three(u, name, '|');
    }
    if u.contains(':') && !u.contains('|') && !w.contains('|') && !name.contains('|') {
        let uw = u + seq![':'] + w;
        assert(!uw.contains('|')) by {
            if uw.contains('|') {
                let i = choose|i: int| 0 <= i < uw.len() && uw[i] == '|';
                if i < u.len() {
                    assert(u[i] == '|');
                } else if i > u.len() {
                    assert(w[i - u.len() - 1] == '|');
                }
            }
        }
        lemma_segments_two(uw, name, '|');
        lemma_segments_three(u, w, ':');
    }
    if !w.contains('|') && !w.contains(':') && !name.contains('|') {
        lemma_segments_two(w, name, '|');
    }
}

/// What an entry `name:c` of an option reads as, for a color character `c`
/// other than `:`: an error for a character that is no ASCII, for a name of
/// no item, for an entry met before in the option and for a primary item;
/// otherwise the last item of that name, with the code of `c` as color.
pub proof fn law_color_entry(
    names: Seq<Seq<char>>,
    np: int,
    ts: Seq<Seq<char>>,
    k: int,
    name: Seq<char>,
    c: char,
)
    requires
        0 <= k < ts.len(),
        ts[k] == name + seq![':', c],
        !name.contains(':'),
        c != ':',
    ensures
        color_word(names, np, ts, k) == (if (c as u32) >= 128 {
            Err::<(Count, Data), Error>(Error::ColorNotSingleChar)
        } else if !names.contains(name) {
            Err(Error::InvalidItem)
        } else if ts.take(k).contains(ts[k]) {
            Err(Error::DuplicateItemsInOption)
        } else if last_index(names, name) < np {
            Err(Error::ColorOnPrimary)
        } else {
            Ok((last_index(names, name) as Count, (c as u32) as Data))
        }),
{
    assert(name + seq![':', c] =~= name + seq![':'] + seq![c]);
    assert(!seq![c].contains(':')) by {
        if seq![c].contains(':') {
            let i = choose|i: int| 0 <= i < 1 && seq![c][i] == ':';
        }
    }
    lemma_segments_two(name, seq![c], ':');
    lemma_last_index(names, name);
    if names.contains(name) {
        let i = choose|i: int| 0 <= i < names.len() && names[i] == name;
        assert(names[i] == name);
    }
}

/// An entry without `:` is uncolored: its color is `0`.
pub proof fn law_plain_entry(names: Seq<Seq<char>>, np: int, ts: Seq<Seq<char>>, k: int, j: Count, col: Data)
    requires
        0 <= k < ts.len(),
        !ts[k].contains(':'),
        color_word(names, np, ts, k) == Ok::<(Count, Data), Error>((j, col)),
    ensures
        col == 0,
{
    lemma_segments_one(ts[k], ':');
}

} // verus!
