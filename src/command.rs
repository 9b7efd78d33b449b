//! Launch commands: splitting into words, dropping field-code placeholders.
use vstd::prelude::*;
use crate::text::{is_space, is_space_char, chars_of, string_of};

verus! {

/// Left-to-right word scan: the finished words, and the word in progress.
pub open spec fn scan_words(s: Seq<char>) -> (Seq<Seq<char>>, Seq<char>)
    decreases s.len(),
{
    if s.len() == 0 {
        (seq![], seq![])
    } else {
        let (done, cur) = scan_words(s.drop_last());
        if is_space(s.last()) {
            if cur.len() > 0 {
                (done.push(cur), seq![])
            } else {
                (done, seq![])
            }
        } else {
            (done, cur.push(s.last()))
        }
    }
}

/// The whitespace-delimited words of `s`, as `str::split_whitespace` yields them.
pub open spec fn words(s: Seq<char>) -> Seq<Seq<char>> {
    let (done, cur) = scan_words(s);
    if cur.len() > 0 {
        done.push(cur)
    } else {
        done
    }
}

/// The words joined with single spaces.
pub open spec fn join_words(ws: Seq<Seq<char>>) -> Seq<char>
    decreases ws.len(),
{
    if ws.len() == 0 {
        seq![]
    } else if ws.len() == 1 {
        ws[0]
    } else {
        join_words(ws.drop_last()) + seq![' '] + ws.last()
    }
}

/// The letters that follow `%` in a field code.
pub open spec fn is_field_code(c: char) -> bool {
    c == 'u' || c == 'U' || c == 'f' || c == 'F' || c == 'd' || c == 'D' || c == 'n' || c == 'N'
        || c == 'i' || c == 'c' || c == 'k'
}

/// A word, or a whole command, that holds a field code (`%u`, `%F`, ...)
/// anywhere in it.
pub open spec fn has_placeholder(w: Seq<char>) -> bool {
    exists|i: int| 0 <= i < w.len() - 1 && w[i] == '%' && is_field_code(#[trigger] w[i + 1])
}

/// The words without a placeholder, in their order.
pub open spec fn keep_clean(ws: Seq<Seq<char>>) -> Seq<Seq<char>>
    decreases ws.len(),
{
    if ws.len() == 0 {
        seq![]
    } else if has_placeholder(ws.last()) {
        keep_clean(ws.drop_last())
    } else {
        keep_clean(ws.drop_last()).push(ws.last())
    }
}

/// The command with every placeholder word removed, the rest rejoined with single spaces.
pub open spec fn sanitized(s: Seq<char>) -> Seq<char> {
    join_words(keep_clean(words(s)))
}

/// A word as `words` produces it: not empty, without whitespace.
pub open spec fn is_word(w: Seq<char>) -> bool {
    w.len() > 0 && forall|i: int| 0 <= i < w.len() ==> !is_space(#[trigger] w[i])
}

pub open spec fn all_words(ws: Seq<Seq<char>>) -> bool {
    forall|i: int| 0 <= i < ws.len() ==> is_word(#[trigger] ws[i])
}

pub open spec fn all_clean(ws: Seq<Seq<char>>) -> bool {
    forall|i: int| 0 <= i < ws.len() ==> !has_placeholder(#[trigger] ws[i])
}

/// The views of a vector of character vectors.
pub open spec fn views(ws: Seq<Vec<char>>) -> Seq<Seq<char>> {
    ws.map_values(|w: Vec<char>| w@)
}

/// The words of `s`.
pub fn split_words(s: &Vec<char>) -> (r: Vec<Vec<char>>)
    ensures
        views(r@) == words(s@),
{
    let mut done: Vec<Vec<char>> = Vec::new();
    let mut cur: Vec<char> = Vec::new();
    let mut i: usize = 0;
    while i < s.len()
        invariant
            i <= s.len(),
            (views(done@), cur@) == scan_words(s@.take(i as int)),
        decreases s.len() - i,
    {
        let c = s[i];
        assert(s@.take(i + 1).drop_last() =~= s@.take(i as int));
        if is_space_char(c) {
            if cur.len() > 0 {
                let ghost pre = done@;
                let w = cur;
                cur = Vec::new();
                done.push(w);
                assert(views(done@) =~= views(pre).push(w@));
            }
        } else {
            cur.push(c);
        }
        i = i + 1;
    }
    assert(s@.take(s.len() as int) =~= s@);
    if cur.len() > 0 {
        let ghost pre = done@;
        let ghost w = cur@;
        done.push(cur);
        assert(views(done@) =~= views(pre).push(w));
    }
    done
}


fn is_field_code_char(c: char) -> (r: bool)
    ensures
        r == is_field_code(c),
{
    c == 'u' || c == 'U' || c == 'f' || c == 'F' || c == 'd' || c == 'D' || c == 'n' || c == 'N'
        || c == 'i' || c == 'c' || c == 'k'
}

/// Whether the word holds a field code.
pub fn word_has_placeholder(w: &Vec<char>) -> (r: bool)
    ensures
        r == has_placeholder(w@),
{
    let mut i: usize = 0;
    while i < w.len() && i + 1 < w.len()
        invariant
            i <= w.len(),
            forall|j: int| 0 <= j < i ==> !(w@[j] == '%' && is_field_code(#[trigger] w@[j + 1])),
        decreases w.len() - i,
    {
        if w[i] == '%' && is_field_code_char(w[i + 1]) {
            assert(w@[i + 1 - 1] == '%');
            return true;
        }
        i = i + 1;
    }
    assert forall|j: int| 0 <= j < w@.len() - 1 implies !(w@[j] == '%' && is_field_code(
        #[trigger] w@[j + 1],
    )) by {
        assert(j < i);
    }
    false
}

/// The words without a placeholder, in their order.
pub fn clean_words(ws: &Vec<Vec<char>>) -> (r: Vec<Vec<char>>)
    ensures
        views(r@) == keep_clean(views(ws@)),
{
    let mut r: Vec<Vec<char>> = Vec::new();
    let mut i: usize = 0;
    while i < ws.len()
        invariant
            i <= ws.len(),
            views(r@) == keep_clean(views(ws@.take(i as int))),
        decreases ws.len() - i,
    {
        assert(views(ws@.take(i + 1)).drop_last() =~= views(ws@.take(i as int)));
        assert(views(ws@.take(i + 1)).last() == ws@[i as int]@);
        if !word_has_placeholder(&ws[i]) {
            let ghost pre = r@;
            r.push(ws[i].clone());
            assert(views(r@) =~= views(pre).push(ws@[i as int]@));
        }
        i = i + 1;
    }
    assert(ws@.take(ws.len() as int) =~= ws@);
    r
}

/// The words joined with single spaces.
pub fn join_with_spaces(ws: &Vec<Vec<char>>) -> (r: Vec<char>)
    ensures
        r@ == join_words(views(ws@)),
{
    let mut r: Vec<char> = Vec::new();
    let mut i: usize = 0;
    while i < ws.len()
        invariant
            i <= ws.len(),
            r@ == join_words(views(ws@.take(i as int))),
        decreases ws.len() - i,
    {
        assert(views(ws@.take(i + 1)).drop_last() =~= views(ws@.take(i as int)));
        assert(views(ws@.take(i + 1)).last() == ws@[i as int]@);
        if i > 0 {
            r.push(' ');
        }
        let w = &ws[i];
        let ghost pre = r@;
        let mut j: usize = 0;
        while j < w.len()
            invariant
                j <= w.len(),
                r@ == pre + w@.take(j as int),
            decreases w.len() - j,
        {
            r.push(w[j]);
            j = j + 1;
            assert(r@ =~= pre + w@.take(j as int));
        }
        assert(w@.take(w.len() as int) =~= w@);
        i = i + 1;
        if i == 1 {
            assert(views(ws@.take(1)) =~= seq![w@]);
            assert(r@ =~= w@);
        }
    }
    assert(ws@.take(ws.len() as int) =~= ws@);
    r
}

/// Removes every whitespace-delimited word that holds a field code (`%u %U %f
/// %F %d %D %n %N %i %c %k`) and joins the remaining words with single spaces.
pub fn sanitize_command(command: &str) -> (r: String)
    ensures
        r@ == sanitized(command@),
{
    let cs = chars_of(command);
    let joined = sanitize_chars(&cs);
    string_of(&joined)
}

/// `sanitize_command` on characters.
pub fn sanitize_chars(cs: &Vec<char>) -> (r: Vec<char>)
    ensures
        r@ == sanitized(cs@),
{
    let ws = split_words(cs);
    let kept = clean_words(&ws);
    join_with_spaces(&kept)
}


proof fn lemma_scan_append_word(a: Seq<char>, b: Seq<char>)
    requires
        forall|i: int| 0 <= i < b.len() ==> !is_space(#[trigger] b[i]),
    ensures
        scan_words(a + b) == (scan_words(a).0, scan_words(a).1 + b),
    decreases b.len(),
{
    if b.len() == 0 {
        assert(a + b =~= a);
        assert(scan_words(a).1 + b =~= scan_words(a).1);
    } else {
        let b0 = b.drop_last();
        assert((a + b).drop_last() =~= a + b0);
        assert((a + b).last() == b.last());
        assert(!is_space(b[b.len() - 1]));
        lemma_scan_append_word(a, b0);
        assert((scan_words(a).1 + b0).push(b.last()) =~= scan_words(a).1 + b);
    }
}

proof fn lemma_scan_join(ws: Seq<Seq<char>>)
    requires
        ws.len() > 0,
        all_words(ws),
    ensures
        scan_words(join_words(ws)) == (ws.drop_last(), ws.last()),
    decreases ws.len(),
{
    assert(is_word(ws[ws.len() - 1]));
    if ws.len() == 1 {
        lemma_scan_append_word(seq![], ws[0]);
        assert(seq![] + ws[0] =~= ws[0]);
        assert(ws.drop_last() =~= seq![]);
        assert(scan_words(seq![]) == (Seq::<Seq<char>>::empty(), Seq::<char>::empty()));
        assert(seq![] + ws[0] =~= ws[0]);
    } else {
        let w0 = ws.drop_last();
        assert forall|i: int| 0 <= i < w0.len() implies is_word(#[trigger] w0[i]) by {
            assert(w0[i] == ws[i]);
        }
        lemma_scan_join(w0);
        let j = join_words(w0);
        let js = j + seq![' '];
        assert(js.drop_last() =~= j);
        assert(is_word(w0.last()));
        assert(scan_words(js) == (w0.drop_last().push(w0.last()), Seq::<char>::empty()));
        assert(w0.drop_last().push(w0.last()) =~= w0);
        lemma_scan_append_word(js, ws.last());
        assert(scan_words(js).1 + ws.last() =~= ws.last());
    }
}

proof fn lemma_words_join(ws: Seq<Seq<char>>)
    requires
        all_words(ws),
    ensures
        words(join_words(ws)) == ws,
{
    if ws.len() == 0 {
        assert(scan_words(seq![]) == (Seq::<Seq<char>>::empty(), Seq::<char>::empty()));
        assert(words(join_words(ws)) =~= ws);
    } else {
        lemma_scan_join(ws);
        assert(is_word(ws[ws.len() - 1]));
        assert(ws.drop_last().push(ws.last()) =~= ws);
    }
}

proof fn lemma_scan_gives_words(s: Seq<char>)
    ensures
        all_words(scan_words(s).0),
        forall|i: int|
            0 <= i < scan_words(s).1.len() ==> !is_space(#[trigger] scan_words(s).1[i]),
    decreases s.len(),
{
    if s.len() > 0 {
        lemma_scan_gives_words(s.drop_last());
        let (d, c) = scan_words(s.drop_last());
        if is_space(s.last()) {
            if c.len() > 0 {
                assert(is_word(c));
                assert forall|i: int| 0 <= i < d.push(c).len() implies is_word(
                    #[trigger] d.push(c)[i],
                ) by {
                    if i < d.len() {
                        assert(d.push(c)[i] == d[i]);
                    }
                }
            }
        } else {
            assert forall|i: int| 0 <= i < c.push(s.last()).len() implies !is_space(
                #[trigger] c.push(s.last())[i],
            ) by {
                if i < c.len() {
                    assert(c.push(s.last())[i] == c[i]);
                }
            }
        }
    }
}

proof fn lemma_words_are_words(s: Seq<char>)
    ensures
        all_words(words(s)),
{
    lemma_scan_gives_words(s);
    let (d, c) = scan_words(s);
    if c.len() > 0 {
        assert(is_word(c));
        assert forall|i: int| 0 <= i < d.push(c).len() implies is_word(#[trigger] d.push(c)[i]) by {
            if i < d.len() {
                assert(d.push(c)[i] == d[i]);
            }
        }
    }
}

proof fn lemma_keep_clean(ws: Seq<Seq<char>>)
    ensures
        all_clean(keep_clean(ws)),
        all_words(ws) ==> all_words(keep_clean(ws)),
        all_clean(ws) ==> keep_clean(ws) == ws,
    decreases ws.len(),
{
    if ws.len() > 0 {
        let w0 = ws.drop_last();
        lemma_keep_clean(w0);
        let k = keep_clean(w0);
        if all_words(ws) {
            assert forall|i: int| 0 <= i < w0.len() implies is_word(#[trigger] w0[i]) by {
                assert(w0[i] == ws[i]);
            }
            assert(is_word(ws[ws.len() - 1]));
        }
        if all_clean(ws) {
            assert forall|i: int| 0 <= i < w0.len() implies !has_placeholder(#[trigger] w0[i]) by {
                assert(w0[i] == ws[i]);
            }
            assert(!has_placeholder(ws[ws.len() - 1]));
            assert(w0.push(ws.last()) =~= ws);
        }
        if !has_placeholder(ws.last()) {
            assert forall|i: int| 0 <= i < k.push(ws.last()).len() implies !has_placeholder(
                #[trigger] k.push(ws.last())[i],
            ) by {
                if i < k.len() {
                    assert(k.push(ws.last())[i] == k[i]);
                }
            }
            if all_words(ws) {
                assert(is_word(ws[ws.len() - 1]));
                assert forall|i: int| 0 <= i < k.push(ws.last()).len() implies is_word(
                    #[trigger] k.push(ws.last())[i],
                ) by {
                    if i < k.len() {
                        assert(k.push(ws.last())[i] == k[i]);
                    }
                }
            }
        }
    }
}

proof fn lemma_join_clean(ws: Seq<Seq<char>>)
    requires
        all_clean(ws),
    ensures
        !has_placeholder(join_words(ws)),
    decreases ws.len(),
{
    if ws.len() == 1 {
        assert(!has_placeholder(ws[0]));
    } else if ws.len() > 1 {
        let w0 = ws.drop_last();
        assert forall|i: int| 0 <= i < w0.len() implies !has_placeholder(#[trigger] w0[i]) by {
            assert(w0[i] == ws[i]);
        }
        lemma_join_clean(w0);
        let j = join_words(w0);
        let w = ws.last();
        assert(!has_placeholder(ws[ws.len() - 1]));
        let t = j + seq![' '] + w;
        assert forall|i: int| 0 <= i < t.len() - 1 implies !(t[i] == '%' && is_field_code(
            #[trigger] t[i + 1],
        )) by {
            if i + 1 < j.len() {
                assert(t[i] == j[i] && t[i + 1] == j[i + 1]);
            } else if i + 1 == j.len() {
                assert(t[i + 1] == ' ');
            } else if i == j.len() {
                assert(t[i] == ' ');
            } else {
                let m = i - j.len() - 1;
                assert(t[i] == w[m] && t[i + 1] == w[m + 1]);
            }
        }
    }
}

/// The words of a sanitized command are exactly the placeholder-free words of
/// the command given, in the order they had there; none of them holds a field code, and
/// no field code occurs anywhere in the sanitized text.
pub proof fn lemma_sanitize_keeps_clean_words(s: Seq<char>)
    ensures
        words(sanitized(s)) == keep_clean(words(s)),
        all_clean(words(sanitized(s))),
        !has_placeholder(sanitized(s)),
{
    lemma_words_are_words(s);
    lemma_keep_clean(words(s));
    lemma_words_join(keep_clean(words(s)));
    lemma_join_clean(keep_clean(words(s)));
}

/// Sanitizing twice gives the same command as sanitizing once.
pub proof fn lemma_sanitize_idempotent(s: Seq<char>)
    ensures
        sanitized(sanitized(s)) == sanitized(s),
{
    lemma_sanitize_keeps_clean_words(s);
    lemma_keep_clean(words(sanitized(s)));
}


/// Why a selected application could not be started.
#[derive(Debug, Clone, Copy, PartialEq, Eq, Structural)]
pub enum LaunchError {
    /// The command has no words: nothing is left to run.
    EmptyCommand,
}

/// The views of a vector of strings.
pub open spec fn string_views(v: Seq<String>) -> Seq<Seq<char>> {
    v.map_values(|s: String| s@)
}

/// The program and its arguments for a launch: the words of a command that
/// parsing has already sanitized, or `EmptyCommand` when it has none.
pub fn launch_words(command: &str) -> (r: Result<Vec<String>, LaunchError>)
    ensures
        r is Err <==> words(command@).len() == 0,
        r matches Err(e) ==> e == LaunchError::EmptyCommand,
        r matches Ok(v) ==> string_views(v@) == words(command@),
{
    let cs = chars_of(command);
    let ws = split_words(&cs);
    if ws.len() == 0 {
        return Err(LaunchError::EmptyCommand);
    }
    let mut out: Vec<String> = Vec::new();
    let mut i: usize = 0;
    while i < ws.len()
        invariant
            i <= ws.len(),
            string_views(out@) == views(ws@).take(i as int),
        decreases ws.len() - i,
    {
        let ghost pre = out@;
        let w = string_of(&ws[i]);
        out.push(w);
        assert(string_views(out@) =~= string_views(pre).push(w@));
        assert(views(ws@).take(i + 1) =~= views(ws@).take(i as int).push(ws@[i as int]@));
        i = i + 1;
    }
    assert(views(ws@).take(ws.len() as int) =~= views(ws@));
    Ok(out)
}

} // verus!
