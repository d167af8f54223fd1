//! The dictionary source: a newline-delimited base wordlist, the fixed set
//! of mutations applied to each word, and the sorted, deduplicated list of
//! candidates they give.
use vstd::prelude::*;
use vstd::string::StrSliceExecFns;

verus! {

/// The base wordlist, one word per line.
pub const BASE_WORDLIST: &'static str = "123456\npassword\n12345678\nqwerty\n123456789\n12345\n1234\n111111\n1234567\ndragon\n123123\nbaseball\nabc123\nfootball\nmonkey\nletmein\n696969\nshadow\nmaster\n666666\nqwertyuiop\n123321\nmustang\n1234567890\nmichael\n654321\nsuperman\n1qaz2wsx\n7777777\n121212\n000000\nqazwsx\n123qwe\nkiller\ntrustno1\njordan\njennifer\nzxcvbnm\nasdfgh\nhunter\nbuster\nsoccer\nharley\nbatman\nandrew\ntigger\nsunshine\niloveyou\n2000\ncharlie\nrobert\nthomas\nhockey\nranger\ndaniel\nstarwars\nklaster\n112233\ngeorge\ncomputer\nmichelle\njessica\npepper\n1111\nzxcvbn\n555555\n11111111\n131313\nfreedom\n777777\npass\nmaggie\n159753\naaaaaa\nginger\nprincess\njoshua\ncheese\namanda\nsummer\nlove\nashley\nnicole\nchelsea\nbiteme\nmatthew\naccess\nyankees\n987654321\ndallas\naustin\nthunder\ntaylor\nmatrix\nPassword1\nwelcome\nadmin\nlogin\nsecret\n";

/// The uppercase form of a string, as `str::to_uppercase` gives it.
pub uninterp spec fn upper_of(s: Seq<char>) -> Seq<char>;

/// Relies on `str::to_uppercase`: the full Unicode uppercase mapping, which
/// depends on the characters alone and keeps an empty string empty.
#[verifier::external_body]
fn uppercase(s: &str) -> (r: String)
    ensures
        r@ == upper_of(s@),
        s@.len() == 0 ==> r@.len() == 0,
{
    s.to_uppercase()
}

/// Relies on `char::to_ascii_uppercase`: `a`..`z` map to `A`..`Z`, every
/// other character stays as it is.
#[verifier::external_body]
fn ascii_uppercase(c: char) -> (r: char)
    ensures
        'a' <= c <= 'z' ==> r as u32 == c as u32 - 32,
        !('a' <= c <= 'z') ==> r == c,
{
    c.to_ascii_uppercase()
}

/// The characters of a string, in order.
fn chars_of(s: &str) -> (r: Vec<char>)
    ensures
        r@ == s@,
{
    let n = s.unicode_len();
    let mut out: Vec<char> = Vec::with_capacity(n);
    let mut i: usize = 0;
    while i < n
        invariant
            n == s@.len(),
            i <= n,
            out@ == s@.subrange(0, i as int),
        decreases n - i,
    {
        out.push(s.get_char(i));
        i = i + 1;
        assert(out@ =~= s@.subrange(0, i as int));
    }
    assert(out@ =~= s@);
    out
}

/// Relies on `String::from_iter`: the string made of the given characters.
#[verifier::external_body]
fn string_of(v: &[char]) -> (r: String)
    ensures
        r@ == v@,
{
    String::from_iter(v.iter())
}

/// Lexicographic order of character sequences by code point, which is the
/// order of `str`'s `Ord` (byte order of UTF-8, documented to agree with
/// code point order).
pub open spec fn lex_le(a: Seq<char>, b: Seq<char>) -> bool
    decreases a.len(),
{
    if a.len() == 0 {
        true
    } else if b.len() == 0 {
        false
    } else if (a[0] as u32) < (b[0] as u32) {
        true
    } else if a[0] != b[0] {
        false
    } else {
        lex_le(a.drop_first(), b.drop_first())
    }
}

/// Each string is ordered before every later one.
pub open spec fn sorted(v: Seq<String>) -> bool {
    forall|i: int, j: int| 0 <= i < j < v.len() ==> lex_le(#[trigger] v[i]@, #[trigger] v[j]@)
}

/// Sorted, and no string appears twice.
pub open spec fn sorted_unique(v: Seq<String>) -> bool {
    forall|i: int, j: int|
        0 <= i < j < v.len() ==> lex_le(#[trigger] v[i]@, #[trigger] v[j]@) && v[i]@ != v[j]@
}

/// Relies on `slice::sort_unstable` with `String`'s `Ord`: the same strings,
/// in ascending lexicographic order.
#[verifier::external_body]
fn sort_strings(v: &mut Vec<String>)
    ensures
        final(v)@.len() == old(v)@.len(),
        final(v)@.to_multiset() == old(v)@.to_multiset(),
        sorted(final(v)@),
{
    v.sort_unstable()
}

/// An ASCII lowercase letter.
pub open spec fn is_ascii_lower(c: char) -> bool {
    'a' <= c <= 'z'
}

/// The word with its first character uppercased when that is an ASCII
/// lowercase letter; otherwise the word itself.
pub open spec fn capitalized(w: Seq<char>) -> Seq<char> {
    if w.len() > 0 && is_ascii_lower(w[0]) {
        w.update(0, ((w[0] as u32 - 32) as u32) as char)
    } else {
        w
    }
}

/// The leet-speak substitute of one character.
pub open spec fn leet_char(c: char) -> char {
    if c == 'a' || c == 'A' {
        '@'
    } else if c == 'e' || c == 'E' {
        '3'
    } else if c == 'o' || c == 'O' {
        '0'
    } else if c == 'i' || c == 'I' {
        '1'
    } else if c == 's' || c == 'S' {
        '$'
    } else {
        c
    }
}

pub open spec fn leet(w: Seq<char>) -> Seq<char> {
    w.map_values(|c: char| leet_char(c))
}

/// The ten suffixes appended to each word.
pub open spec fn suffixes() -> Seq<Seq<char>> {
    seq![
        seq!['1'],
        seq!['1', '2'],
        seq!['1', '2', '3'],
        seq!['!'],
        seq!['1', '!'],
        seq!['0'],
        seq!['0', '0'],
        seq!['0', '1'],
        seq!['6', '9'],
        seq!['0', '0', '7'],
    ]
}

/// The mutations of a word, in the order they are produced: the word, its
/// uppercase, its capitalized form (for a non-empty word), the word with
/// each suffix, and its leet form where that differs from the word.
pub open spec fn mutations_of(w: Seq<char>) -> Seq<Seq<char>> {
    seq![w, upper_of(w)] + (if w.len() > 0 {
        seq![capitalized(w)]
    } else {
        Seq::empty()
    }) + suffixes().map_values(|s: Seq<char>| w + s) + (if leet(w) != w {
        seq![leet(w)]
    } else {
        Seq::empty()
    })
}

pub open spec fn views(v: Seq<String>) -> Seq<Seq<char>> {
    v.map_values(|s: String| s@)
}

fn push_suffix(out: &mut Vec<String>, word: &str, suffix: &str)
    ensures
        views(final(out)@) == views(old(out)@).push(word@ + suffix@),
{
    let mut s = String::from_str(word);
    s.append(suffix);
    out.push(s);
    assert(views(out@) =~= views(old(out)@).push(word@ + suffix@));
}

/// Every mutation of `word`, in the order of `mutations_of`.
pub fn generate_mutations(word: &str) -> (r: Vec<String>)
    ensures
        views(r@) == mutations_of(word@),
{
    let mut out: Vec<String> = Vec::with_capacity(15);
    out.push(String::from_str(word));
    out.push(uppercase(word));
    let chars = chars_of(word);
    if chars.len() > 0 {
        let mut cap = chars.clone();
        let first = chars[0];
        if 'a' <= first && first <= 'z' {
            let up = ascii_uppercase(first);
            cap.set(0, up);
            assert(cap@ == capitalized(word@));
        } else {
            assert(cap@ == capitalized(word@));
        }
        out.push(string_of(cap.as_slice()));
    }
    let ghost head = views(out@);
    assert(chars@.len() == word@.len());
    assert(head =~= seq![word@, upper_of(word@)] + (if word@.len() > 0 {
        seq![capitalized(word@)]
    } else {
        Seq::empty()
    }));
    proof {
        reveal_strlit("1");
        reveal_strlit("12");
        reveal_strlit("123");
        reveal_strlit("!");
        reveal_strlit("1!");
        reveal_strlit("0");
        reveal_strlit("00");
        reveal_strlit("01");
        reveal_strlit("69");
        reveal_strlit("007");
        assert("1"@ =~= seq!['1']);
        assert("12"@ =~= seq!['1', '2']);
        assert("123"@ =~= seq!['1', '2', '3']);
        assert("!"@ =~= seq!['!']);
        assert("1!"@ =~= seq!['1', '!']);
        assert("0"@ =~= seq!['0']);
        assert("00"@ =~= seq!['0', '0']);
        assert("01"@ =~= seq!['0', '1']);
        assert("69"@ =~= seq!['6', '9']);
        assert("007"@ =~= seq!['0', '0', '7']);
    }
    push_suffix(&mut out, word, "1");
    push_suffix(&mut out, word, "12");
    push_suffix(&mut out, word, "123");
    push_suffix(&mut out, word, "!");
    push_suffix(&mut out, word, "1!");
    push_suffix(&mut out, word, "0");
    push_suffix(&mut out, word, "00");
    push_suffix(&mut out, word, "01");
    push_suffix(&mut out, word, "69");
    push_suffix(&mut out, word, "007");
    assert(views(out@) =~= head + suffixes().map_values(|s: Seq<char>| word@ + s));
    let mut sub: Vec<char> = Vec::with_capacity(chars.len());
    let mut i: usize = 0;
    while i < chars.len()
        invariant
            i <= chars@.len(),
            chars@ == word@,
            sub@ == leet(word@).subrange(0, i as int),
        decreases chars@.len() - i,
    {
        let c = chars[i];
        let d = if c == 'a' || c == 'A' {
            '@'
        } else if c == 'e' || c == 'E' {
            '3'
        } else if c == 'o' || c == 'O' {
            '0'
        } else if c == 'i' || c == 'I' {
            '1'
        } else if c == 's' || c == 'S' {
            '$'
        } else {
            c
        };
        sub.push(d);
        i = i + 1;
        assert(sub@ =~= leet(word@).subrange(0, i as int));
    }
    assert(sub@ =~= leet(word@));
    let leet_word = string_of(sub.as_slice());
    let plain_word = String::from_str(word);
    let ghost before = views(out@);
    if leet_word != plain_word {
        out.push(leet_word);
        assert(views(out@) =~= before.push(leet(word@)));
    } else {
        assert(views(out@) =~= before);
    }
    assert(views(out@) =~= mutations_of(word@));
    out
}

/// The lines of a text: split at each `\n`; the last line may be empty.
pub open spec fn split_lines(t: Seq<char>) -> Seq<Seq<char>>
    decreases t.len(),
{
    if t.len() == 0 {
        seq![Seq::empty()]
    } else {
        let p = split_lines(t.drop_last());
        if t.last() == '\n' {
            p.push(Seq::empty())
        } else {
            p.update(p.len() - 1, p.last().push(t.last()))
        }
    }
}

/// A line without its `\r` terminator.
pub open spec fn strip_cr(l: Seq<char>) -> Seq<char> {
    if l.len() > 0 && l.last() == '\r' {
        l.drop_last()
    } else {
        l
    }
}

pub open spec fn non_empty(l: Seq<char>) -> bool {
    l.len() > 0
}

/// The words of a wordlist: its lines without `\r`, empty ones left out.
pub open spec fn words_of(t: Seq<char>) -> Seq<Seq<char>> {
    split_lines(t).map_values(|l: Seq<char>| strip_cr(l)).filter(|l: Seq<char>| non_empty(l))
}

proof fn lemma_split_lines_len(t: Seq<char>)
    ensures
        split_lines(t).len() >= 1,
    decreases t.len(),
{
    if t.len() > 0 {
        lemma_split_lines_len(t.drop_last());
    }
}

proof fn lemma_words_push(done: Seq<Seq<char>>, line: Seq<char>)
    ensures
        done.push(line).map_values(|l: Seq<char>| strip_cr(l)).filter(|l: Seq<char>| non_empty(l))
            == if non_empty(strip_cr(line)) {
            done.map_values(|l: Seq<char>| strip_cr(l)).filter(|l: Seq<char>| non_empty(l)).push(
                strip_cr(line),
            )
        } else {
            done.map_values(|l: Seq<char>| strip_cr(l)).filter(|l: Seq<char>| non_empty(l))
        },
{
    let f = |l: Seq<char>| strip_cr(l);
    let m = done.map_values(f);
    assert(done.push(line).map_values(f) =~= m.push(strip_cr(line)));
    m.lemma_filter_push(strip_cr(line), |l: Seq<char>| non_empty(l));
}

/// Ends the current line: adds it to `acc` unless it is empty once its
/// `\r` is removed, and starts a new one.
fn finish_line(acc: &mut Vec<String>, cur: &mut Vec<char>)
    ensures
        final(cur)@.len() == 0,
        views(final(acc)@) == if non_empty(strip_cr(old(cur)@)) {
            views(old(acc)@).push(strip_cr(old(cur)@))
        } else {
            views(old(acc)@)
        },
{
    let n = cur.len();
    if n > 0 && cur[n - 1] == '\r' {
        cur.pop();
    }
    assert(cur@ == strip_cr(old(cur)@));
    if cur.len() > 0 {
        let w = string_of(cur.as_slice());
        acc.push(w);
        assert(views(acc@) =~= views(old(acc)@).push(strip_cr(old(cur)@)));
    } else {
        assert(views(acc@) =~= views(old(acc)@));
    }
    *cur = Vec::new();
}

/// The words of a newline-delimited wordlist, in order: each line with a
/// trailing `\r` removed, empty lines skipped.
pub fn split_wordlist(text: &str) -> (r: Vec<String>)
    ensures
        views(r@) == words_of(text@),
{
    let t = chars_of(text);
    let mut acc: Vec<String> = Vec::new();
    let mut cur: Vec<char> = Vec::new();
    let mut i: usize = 0;
    proof {
        assert(t@.subrange(0, 0) =~= Seq::<char>::empty());
        assert(split_lines(Seq::<char>::empty()).drop_last() =~= Seq::<Seq<char>>::empty());
        assert(views(acc@) =~= Seq::<Seq<char>>::empty().map_values(|l: Seq<char>| strip_cr(l)).filter(
            |l: Seq<char>| non_empty(l),
        ));
    }
    while i < t.len()
        invariant
            i <= t@.len(),
            t@ == text@,
            split_lines(t@.subrange(0, i as int)).len() >= 1,
            cur@ == split_lines(t@.subrange(0, i as int)).last(),
            views(acc@) == split_lines(t@.subrange(0, i as int)).drop_last().map_values(
                |l: Seq<char>| strip_cr(l),
            ).filter(|l: Seq<char>| non_empty(l)),
        decreases t@.len() - i,
    {
        let ghost pre = t@.subrange(0, i as int);
        let ghost next = t@.subrange(0, i as int + 1);
        assert(next.drop_last() =~= pre);
        assert(next.last() == t@[i as int]);
        let c = t[i];
        if c == '\n' {
            proof {
                lemma_words_push(split_lines(pre).drop_last(), cur@);
                assert(split_lines(next).drop_last() =~= split_lines(pre).drop_last().push(cur@));
            }
            finish_line(&mut acc, &mut cur);
            assert(cur@ =~= split_lines(next).last());
        } else {
            cur.push(c);
            assert(split_lines(next).drop_last() =~= split_lines(pre).drop_last());
        }
        i = i + 1;
        proof {
            lemma_split_lines_len(t@.subrange(0, i as int));
        }
    }
    proof {
        assert(t@.subrange(0, t@.len() as int) =~= t@);
        let sl = split_lines(t@);
        assert(sl.drop_last().push(sl.last()) =~= sl);
        lemma_words_push(sl.drop_last(), sl.last());
    }
    finish_line(&mut acc, &mut cur);
    acc
}

/// The words of the built-in list.
pub open spec fn base_words_spec() -> Seq<Seq<char>> {
    words_of(BASE_WORDLIST@)
}

pub open spec fn base_word_count_spec() -> nat {
    base_words_spec().len()
}

/// The words of the built-in list, in order.
pub fn base_words() -> (r: Vec<String>)
    ensures
        views(r@) == base_words_spec(),
{
    split_wordlist(BASE_WORDLIST)
}

/// How many words the built-in list holds.
pub fn base_word_count() -> (r: usize)
    ensures
        r == base_word_count_spec(),
{
    let w = base_words();
    assert(views(w@).len() == w@.len());
    w.len()
}

/// The mutations of each word in turn, concatenated.
pub open spec fn all_mutations(ws: Seq<Seq<char>>) -> Seq<Seq<char>>
    decreases ws.len(),
{
    if ws.len() == 0 {
        Seq::empty()
    } else {
        all_mutations(ws.drop_last()) + mutations_of(ws.last())
    }
}

proof fn lemma_lex_antisymmetric(a: Seq<char>, b: Seq<char>)
    requires
        lex_le(a, b),
        lex_le(b, a),
    ensures
        a == b,
    decreases a.len(),
{
    if a.len() > 0 && b.len() > 0 {
        assert(a[0] == b[0]);
        lemma_lex_antisymmetric(a.drop_first(), b.drop_first());
        assert(a =~= seq![a[0]] + a.drop_first());
        assert(b =~= seq![b[0]] + b.drop_first());
    }
}

proof fn lemma_lex_transitive(a: Seq<char>, b: Seq<char>, c: Seq<char>)
    requires
        lex_le(a, b),
        lex_le(b, c),
    ensures
        lex_le(a, c),
    decreases a.len(),
{
    if a.len() > 0 && b.len() > 0 && c.len() > 0 && a[0] == b[0] && b[0] == c[0] {
        lemma_lex_transitive(a.drop_first(), b.drop_first(), c.drop_first());
    }
}

/// Some string of `v` has the characters `x`.
pub open spec fn has_view(v: Seq<String>, x: Seq<char>) -> bool {
    exists|j: int| 0 <= j < v.len() && #[trigger] v[j]@ == x
}

/// Removes repeats from a sorted list, leaving each string once.
pub fn dedup_sorted(v: &Vec<String>) -> (r: Vec<String>)
    requires
        sorted(v@),
    ensures
        views(r@).to_set() == views(v@).to_set(),
        sorted_unique(r@),
{
    let mut r: Vec<String> = Vec::new();
    let mut i: usize = 0;
    while i < v.len()
        invariant
            i <= v@.len(),
            sorted(v@),
            forall|k: int| 0 <= k < i ==> has_view(r@, #[trigger] v@[k]@),
            forall|j: int| 0 <= j < r@.len() ==> has_view(v@.subrange(0, i as int), #[trigger] r@[j]@),
            sorted_unique(r@),
            i > 0 ==> r@.len() > 0 && r@.last()@ == v@[i - 1]@,
            i > 0 ==> forall|j: int| 0 <= j < r@.len() ==> lex_le(#[trigger] r@[j]@, v@[i - 1]@),
        decreases v@.len() - i,
    {
        let take = if r.len() == 0 {
            true
        } else {
            let last = r.len() - 1;
            r[last] != v[i]
        };
        let ghost old_r = r@;
        let ghost pre = v@.subrange(0, i as int);
        let ghost next = v@.subrange(0, i as int + 1);
        let ghost x = v@[i as int]@;
        proof {
            assert forall|y: Seq<char>| has_view(pre, y) implies has_view(next, y) by {
                let k = choose|k: int| 0 <= k < pre.len() && #[trigger] pre[k]@ == y;
                assert(next[k] == pre[k]);
            }
            assert(next[i as int] == v@[i as int]);
            assert(has_view(next, x));
            if i > 0 {
                assert(lex_le(v@[i - 1]@, x));
                assert forall|j: int| 0 <= j < old_r.len() implies lex_le(#[trigger] old_r[j]@, x) by {
                    lemma_lex_transitive(old_r[j]@, v@[i - 1]@, x);
                }
            }
        }
        if take {
            proof {
                assert forall|j: int| 0 <= j < old_r.len() implies old_r[j]@ != x by {
                    if old_r[j]@ == x {
                        let l = old_r.len() - 1;
                        if j < l {
                            assert(lex_le(old_r[j]@, old_r[l]@));
                        }
                        lemma_lex_antisymmetric(old_r[l]@, x);
                    }
                }
            }
            r.push(v[i].clone());
            assert(r@[r@.len() - 1]@ == x);
            assert forall|a: int, b: int| 0 <= a < b < r@.len() implies lex_le(
                #[trigger] r@[a]@,
                #[trigger] r@[b]@,
            ) && r@[a]@ != r@[b]@ by {
                assert(r@[a] == old_r[a]);
                if b < old_r.len() {
                    assert(r@[b] == old_r[b]);
                }
            }
            assert forall|k: int| 0 <= k < i + 1 implies has_view(r@, #[trigger] v@[k]@) by {
                if k < i {
                    let j = choose|j: int| 0 <= j < old_r.len() && #[trigger] old_r[j]@ == v@[k]@;
                    assert(r@[j] == old_r[j]);
                } else {
                    assert(r@[r@.len() - 1]@ == v@[k]@);
                }
            }
            assert forall|j: int| 0 <= j < r@.len() implies has_view(next, #[trigger] r@[j]@) by {
                if j < old_r.len() {
                    assert(r@[j] == old_r[j]);
                    assert(has_view(pre, old_r[j]@));
                }
            }
            assert forall|j: int| 0 <= j < r@.len() implies lex_le(#[trigger] r@[j]@, v@[i as int]@) by {
                if j < old_r.len() {
                    assert(r@[j] == old_r[j]);
                } else {
                    lemma_lex_reflexive(x);
                }
            }
        } else {
            assert forall|k: int| 0 <= k < i + 1 implies has_view(r@, #[trigger] v@[k]@) by {
                if k == i {
                    assert(r@[r@.len() - 1]@ == v@[k]@);
                }
            }
            assert forall|j: int| 0 <= j < r@.len() implies has_view(next, #[trigger] r@[j]@) by {
                assert(has_view(pre, r@[j]@));
            }
        }
        i = i + 1;
    }
    proof {
        assert(v@.subrange(0, v@.len() as int) =~= v@);
        assert forall|x: Seq<char>| views(r@).to_set().contains(x) implies views(
            v@,
        ).to_set().contains(x) by {
            let j = choose|j: int| 0 <= j < views(r@).len() && views(r@)[j] == x;
            assert(has_view(v@, r@[j]@));
            let k = choose|k: int| 0 <= k < v@.len() && #[trigger] v@[k]@ == r@[j]@;
            assert(views(v@)[k] == x);
        }
        assert forall|x: Seq<char>| views(v@).to_set().contains(x) implies views(
            r@,
        ).to_set().contains(x) by {
            let k = choose|k: int| 0 <= k < views(v@).len() && views(v@)[k] == x;
            assert(has_view(r@, v@[k]@));
            let j = choose|j: int| 0 <= j < r@.len() && #[trigger] r@[j]@ == v@[k]@;
            assert(views(r@)[j] == x);
        }
        assert(views(r@).to_set() =~= views(v@).to_set());
    }
    r
}

proof fn lemma_lex_reflexive(a: Seq<char>)
    ensures
        lex_le(a, a),
    decreases a.len(),
{
    if a.len() > 0 {
        lemma_lex_reflexive(a.drop_first());
    }
}

proof fn lemma_same_multiset_same_views(a: Seq<String>, b: Seq<String>)
    requires
        a.to_multiset() == b.to_multiset(),
    ensures
        views(a).to_set() == views(b).to_set(),
{
    broadcast use vstd::seq_lib::group_to_multiset_ensures;
    assert forall|x: Seq<char>| views(a).to_set().contains(x) implies views(b).to_set().contains(x) by {
        let i = choose|i: int| 0 <= i < views(a).len() && views(a)[i] == x;
        assert(a.contains(a[i]));
        assert(a.to_multiset().count(a[i]) > 0);
        assert(b.to_multiset().count(a[i]) > 0);
        assert(b.contains(a[i]));
        let j = choose|j: int| 0 <= j < b.len() && b[j] == a[i];
        assert(views(b)[j] == x);
    }
    assert forall|x: Seq<char>| views(b).to_set().contains(x) implies views(a).to_set().contains(x) by {
        let i = choose|i: int| 0 <= i < views(b).len() && views(b)[i] == x;
        assert(b.contains(b[i]));
        assert(b.to_multiset().count(b[i]) > 0);
        assert(a.to_multiset().count(b[i]) > 0);
        assert(a.contains(b[i]));
        let j = choose|j: int| 0 <= j < a.len() && a[j] == b[i];
        assert(views(a)[j] == x);
    }
    assert(views(a).to_set() =~= views(b).to_set());
}

/// The dictionary candidates for the built-in list extended with `custom`:
/// every mutation of every word, each once, sorted.
pub fn dictionary_candidates(custom: &Vec<String>) -> (r: Vec<String>)
    ensures
        views(r@).to_set() == all_mutations(base_words_spec() + views(custom@)).to_set(),
        sorted_unique(r@),
        views(r@).no_duplicates(),
        r@.len() == all_mutations(base_words_spec() + views(custom@)).to_set().len(),
{
    let mut words = base_words();
    let mut k: usize = 0;
    let ghost base = views(words@);
    while k < custom.len()
        invariant
            k <= custom@.len(),
            base == base_words_spec(),
            views(words@) == base + views(custom@).subrange(0, k as int),
        decreases custom@.len() - k,
    {
        let ghost prev = words@;
        let w = custom[k].clone();
        assert(w@ == custom@[k as int]@);
        words.push(w);
        assert(views(words@) =~= views(prev).push(custom@[k as int]@));
        assert(views(custom@).subrange(0, k as int + 1) =~= views(custom@).subrange(0, k as int).push(
            custom@[k as int]@,
        ));
        k = k + 1;
        assert(views(words@) =~= base + views(custom@).subrange(0, k as int));
    }
    assert(views(custom@).subrange(0, custom@.len() as int) =~= views(custom@));
    let mut all: Vec<String> = Vec::new();
    let mut i: usize = 0;
    while i < words.len()
        invariant
            i <= words@.len(),
            views(all@) == all_mutations(views(words@).subrange(0, i as int)),
        decreases words@.len() - i,
    {
        let m = generate_mutations(words[i].as_str());
        let ghost before = views(all@);
        let mut j: usize = 0;
        while j < m.len()
            invariant
                j <= m@.len(),
                views(all@) == before + views(m@).subrange(0, j as int),
            decreases m@.len() - j,
        {
            let ghost prev = all@;
            let w = m[j].clone();
            assert(w@ == m@[j as int]@);
            all.push(w);
            assert(views(all@) =~= views(prev).push(m@[j as int]@));
            assert(views(m@).subrange(0, j as int + 1) =~= views(m@).subrange(0, j as int).push(
                m@[j as int]@,
            ));
            j = j + 1;
            assert(views(all@) =~= before + views(m@).subrange(0, j as int));
        }
        assert(views(m@).subrange(0, m@.len() as int) =~= views(m@));
        assert(views(words@).subrange(0, i as int + 1).drop_last() =~= views(words@).subrange(0, i as int));
        i = i + 1;
    }
    assert(views(words@).subrange(0, words@.len() as int) =~= views(words@));
    let ghost unsorted = all@;
    sort_strings(&mut all);
    proof {
        lemma_same_multiset_same_views(all@, unsorted);
    }
    let r = dedup_sorted(&all);
    proof {
        let vr = views(r@);
        assert forall|i: int, j: int| 0 <= i < vr.len() && 0 <= j < vr.len() && i != j implies vr[i]
            != vr[j] by {
            if i < j {
                assert(r@[i]@ != r@[j]@);
            } else {
                assert(r@[j]@ != r@[i]@);
            }
        }
        vr.unique_seq_to_set();
    }
    r
}

} // verus!
