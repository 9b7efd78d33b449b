//! Application descriptors: `Key=Value` lines parsed into application records.
use vstd::prelude::*;
use crate::text::{is_space, is_space_char, chars_of, string_of, chars_eq};
use crate::command::{sanitized, sanitize_chars, views, string_views};

verus! {

/// Left-to-right line scan: the finished lines, and the line in progress.
pub open spec fn scan_lines(s: Seq<char>) -> (Seq<Seq<char>>, Seq<char>)
    decreases s.len(),
{
    if s.len() == 0 {
        (seq![], seq![])
    } else {
        let (done, cur) = scan_lines(s.drop_last());
        if s.last() == '\n' {
            (done.push(cur), seq![])
        } else {
            (done, cur.push(s.last()))
        }
    }
}

/// The text cut at each newline.
pub open spec fn lines(s: Seq<char>) -> Seq<Seq<char>> {
    let (done, cur) = scan_lines(s);
    done.push(cur)
}

/// `s` without its leading whitespace.
pub open spec fn trim_start(s: Seq<char>) -> Seq<char>
    decreases s.len(),
{
    if s.len() > 0 && is_space(s[0]) {
        trim_start(s.drop_first())
    } else {
        s
    }
}

/// `s` without its trailing whitespace.
pub open spec fn trim_end(s: Seq<char>) -> Seq<char>
    decreases s.len(),
{
    if s.len() > 0 && is_space(s.last()) {
        trim_end(s.drop_last())
    } else {
        s
    }
}

/// `s` without whitespace at either end.
pub open spec fn trim(s: Seq<char>) -> Seq<char> {
    trim_end(trim_start(s))
}

/// `k` is the position of the first `=` of the line.
pub open spec fn is_first_eq(l: Seq<char>, k: int) -> bool {
    0 <= k < l.len() && l[k] == '=' && forall|j: int| 0 <= j < k ==> l[j] != '='
}

/// The character an escape `\<c>` stands for: `\s` a space, `\n` a newline,
/// `\t` a tab, `\r` a carriage return, `\\` a backslash.
pub open spec fn escaped(c: char) -> Option<char> {
    if c == 's' {
        Some(' ')
    } else if c == 'n' {
        Some('\n')
    } else if c == 't' {
        Some('\t')
    } else if c == 'r' {
        Some('\r')
    } else if c == '\\' {
        Some('\\')
    } else {
        None
    }
}

/// `tail` with `head` put in front of it, where there is a tail.
pub open spec fn prepend(head: Seq<char>, tail: Option<Seq<char>>) -> Option<Seq<char>> {
    match tail {
        Some(t) => Some(head + t),
        None => None,
    }
}

/// A value with its escapes replaced; none where a backslash ends the value or
/// is followed by a character that has no escape.
pub open spec fn unescape(v: Seq<char>) -> Option<Seq<char>>
    decreases v.len(),
{
    if v.len() == 0 {
        Some(seq![])
    } else if v[0] == '\\' {
        if v.len() < 2 {
            None
        } else {
            match escaped(v[1]) {
                Some(c) => prepend(seq![c], unescape(v.skip(2))),
                None => None,
            }
        }
    } else {
        prepend(seq![v[0]], unescape(v.drop_first()))
    }
}

/// The key and the value of a line: what stands before and after its first
/// `=`, both trimmed, and the value unescaped. A line without `=`, or whose
/// value has a bad escape, holds no entry. A comment line has a key that
/// starts with `#`, and so never matches a key that is looked up.
pub open spec fn line_entry(l: Seq<char>) -> Option<(Seq<char>, Seq<char>)> {
    if exists|k: int| is_first_eq(l, k) {
        let k = choose|k: int| is_first_eq(l, k);
        match unescape(trim(l.skip(k + 1))) {
            Some(v) => Some((trim(l.take(k)), v)),
            None => None,
        }
    } else {
        None
    }
}

/// `[Desktop Entry]`.
pub open spec fn main_header() -> Seq<char> {
    seq!['[', 'D', 'e', 's', 'k', 't', 'o', 'p', ' ', 'E', 'n', 't', 'r', 'y', ']']
}

/// The header of a group other than `[Desktop Entry]` (such as a
/// `[Desktop Action ...]`): a line that starts with `[`.
pub open spec fn is_other_header(l: Seq<char>) -> bool {
    l.len() > 0 && l[0] == '[' && trim(l) != main_header()
}

/// The value of the first line whose key is `key`, among the lines before the
/// first header of another group.
pub open spec fn lookup(ls: Seq<Seq<char>>, key: Seq<char>) -> Option<Seq<char>>
    decreases ls.len(),
{
    if ls.len() == 0 {
        None
    } else if is_other_header(ls[0]) {
        None
    } else {
        match line_entry(ls[0]) {
            Some((k, v)) => if k == key {
                Some(v)
            } else {
                lookup(ls.drop_first(), key)
            },
            None => lookup(ls.drop_first(), key),
        }
    }
}

pub open spec fn name_key() -> Seq<char> {
    seq!['N', 'a', 'm', 'e']
}

pub open spec fn exec_key() -> Seq<char> {
    seq!['E', 'x', 'e', 'c']
}

pub open spec fn icon_key() -> Seq<char> {
    seq!['I', 'c', 'o', 'n']
}

/// `Name[<locale>]`.
pub open spec fn localized_key(locale: Seq<char>) -> Seq<char> {
    name_key().push('[') + locale + seq![']']
}

/// `k` is the position of the first underscore of a locale.
pub open spec fn is_first_underscore(l: Seq<char>, k: int) -> bool {
    0 <= k < l.len() && l[k] == '_' && forall|j: int| 0 <= j < k ==> l[j] != '_'
}

/// The language part of a locale, where it has one: what stands before its
/// first `_` (`de` for `de_DE.UTF-8`).
pub open spec fn locale_language(locale: Seq<char>) -> Option<Seq<char>> {
    if exists|k: int| is_first_underscore(locale, k) {
        Some(locale.take(choose|k: int| is_first_underscore(locale, k)))
    } else {
        None
    }
}

/// The name under one locale: `Name[<locale>]`, else `Name[<language>]`.
pub open spec fn name_for_locale(ls: Seq<Seq<char>>, locale: Seq<char>) -> Option<Seq<char>> {
    match lookup(ls, localized_key(locale)) {
        Some(v) => Some(v),
        None => match locale_language(locale) {
            Some(g) => lookup(ls, localized_key(g)),
            None => None,
        },
    }
}

/// The name for the first locale that has a `Name[<locale>]` line or a
/// `Name[<language>]` line, else the bare `Name`.
pub open spec fn localized_name(ls: Seq<Seq<char>>, locales: Seq<Seq<char>>) -> Option<
    Seq<char>,
>
    decreases locales.len(),
{
    if locales.len() == 0 {
        lookup(ls, name_key())
    } else {
        match name_for_locale(ls, locales[0]) {
            Some(v) => Some(v),
            None => localized_name(ls, locales.drop_first()),
        }
    }
}

/// The record a descriptor describes: its name, its sanitized command and its
/// icon; none where the name or the command is missing or empty.
pub open spec fn parsed(text: Seq<char>, locales: Seq<Seq<char>>) -> Option<
    (Seq<char>, Seq<char>, Option<Seq<char>>),
> {
    let ls = lines(text);
    match (localized_name(ls, locales), lookup(ls, exec_key())) {
        (Some(n), Some(e)) => if lookup(ls, name_key()) is Some && n.len() > 0 && sanitized(
            e,
        ).len() > 0 {
            Some((n, sanitized(e), lookup(ls, icon_key())))
        } else {
            None
        },
        _ => None,
    }
}

/// The lines of `s`.
pub fn split_lines(s: &Vec<char>) -> (r: Vec<Vec<char>>)
    ensures
        views(r@) == lines(s@),
{
    let mut done: Vec<Vec<char>> = Vec::new();
    let mut cur: Vec<char> = Vec::new();
    let mut i: usize = 0;
    while i < s.len()
        invariant
            i <= s.len(),
            (views(done@), cur@) == scan_lines(s@.take(i as int)),
        decreases s.len() - i,
    {
        let c = s[i];
        assert(s@.take(i + 1).drop_last() =~= s@.take(i as int));
        if c == '\n' {
            let ghost pre = done@;
            let w = cur;
            cur = Vec::new();
            done.push(w);
            assert(views(done@) =~= views(pre).push(w@));
        } else {
            cur.push(c);
        }
        i = i + 1;
    }
    assert(s@.take(s.len() as int) =~= s@);
    let ghost pre = done@;
    let ghost w = cur@;
    done.push(cur);
    assert(views(done@) =~= views(pre).push(w));
    done
}

/// `v` without whitespace at either end.
pub fn trim_chars(v: &Vec<char>) -> (r: Vec<char>)
    ensures
        r@ == trim(v@),
{
    let mut a: usize = 0;
    assert(v@.skip(0) =~= v@);
    while a < v.len() && is_space_char(v[a])
        invariant
            a <= v.len(),
            trim_start(v@) == trim_start(v@.skip(a as int)),
        decreases v.len() - a,
    {
        assert(v@.skip(a as int).drop_first() =~= v@.skip(a + 1));
        a = a + 1;
    }
    let ghost t = v@.skip(a as int);
    assert(trim_start(v@) == t);
    let mut b: usize = v.len();
    while b > a && is_space_char(v[b - 1])
        invariant
            a <= b <= v.len(),
            trim_end(t) == trim_end(v@.subrange(a as int, b as int)),
        decreases b,
    {
        assert(v@.subrange(a as int, b as int).drop_last() =~= v@.subrange(a as int, b - 1));
        b = b - 1;
    }
    let mut r: Vec<char> = Vec::new();
    let mut i: usize = a;
    while i < b
        invariant
            a <= i <= b,
            b <= v.len(),
            r@ == v@.subrange(a as int, i as int),
        decreases b - i,
    {
        r.push(v[i]);
        i = i + 1;
        assert(r@ =~= v@.subrange(a as int, i as int));
    }
    r
}

/// The key and the value of a line, where it has an `=`.
pub fn entry_of(l: &Vec<char>) -> (r: Option<(Vec<char>, Vec<char>)>)
    ensures
        match r {
            Some((k, v)) => line_entry(l@) == Some((k@, v@)),
            None => line_entry(l@) is None,
        },
{
    let mut k: usize = 0;
    while k < l.len() && l[k] != '='
        invariant
            k <= l.len(),
            forall|j: int| 0 <= j < k ==> l@[j] != '=',
        decreases l.len() - k,
    {
        k = k + 1;
    }
    if k == l.len() {
        assert(!exists|k: int| is_first_eq(l@, k));
        return None;
    }
    assert(is_first_eq(l@, k as int));
    let ghost c = choose|k: int| is_first_eq(l@, k);
    assert(c == k) by {
        if c < k {
            assert(l@[c] != '=');
        } else if c > k {
            assert(l@[k as int] != '=');
        }
    }
    let mut key: Vec<char> = Vec::new();
    let mut i: usize = 0;
    while i < k
        invariant
            i <= k < l.len(),
            key@ == l@.take(i as int),
        decreases k - i,
    {
        key.push(l[i]);
        i = i + 1;
        assert(key@ =~= l@.take(i as int));
    }
    let mut value: Vec<char> = Vec::new();
    let mut j: usize = k + 1;
    while j < l.len()
        invariant
            k < j <= l.len(),
            value@ == l@.subrange(k + 1, j as int),
        decreases l.len() - j,
    {
        value.push(l[j]);
        j = j + 1;
        assert(value@ =~= l@.subrange(k + 1, j as int));
    }
    assert(value@ =~= l@.skip(k + 1));
    match unescape_chars(&trim_chars(&value)) {
        Some(v) => Some((trim_chars(&key), v)),
        None => None,
    }
}

fn escaped_char(c: char) -> (r: Option<char>)
    ensures
        r == escaped(c),
{
    if c == 's' {
        Some(' ')
    } else if c == 'n' {
        Some('\n')
    } else if c == 't' {
        Some('\t')
    } else if c == 'r' {
        Some('\r')
    } else if c == '\\' {
        Some('\\')
    } else {
        None
    }
}

/// The value with its escapes replaced, where they are all good.
pub fn unescape_chars(v: &Vec<char>) -> (r: Option<Vec<char>>)
    ensures
        match r {
            Some(u) => unescape(v@) == Some(u@),
            None => unescape(v@) is None,
        },
{
    let mut out: Vec<char> = Vec::new();
    let mut i: usize = 0;
    assert(v@.skip(0) =~= v@);
    assert(Seq::<char>::empty() + v@ =~= v@);
    while i < v.len()
        invariant
            i <= v.len(),
            unescape(v@) == prepend(out@, unescape(v@.skip(i as int))),
        decreases v.len() - i,
    {
        let ghost rest = v@.skip(i as int);
        let ghost pre = out@;
        if v[i] == '\\' {
            if i + 1 >= v.len() {
                return None;
            }
            assert(rest[1] == v@[i + 1]);
            match escaped_char(v[i + 1]) {
                Some(c) => {
                    assert(rest.skip(2) =~= v@.skip(i + 2));
                    out.push(c);
                    proof {
                        let x = unescape(v@.skip(i + 2));
                        if x is Some {
                            assert(pre + (seq![c] + x->0) =~= out@ + x->0);
                        }
                    }
                    i = i + 2;
                },
                None => {
                    return None;
                },
            }
        } else {
            let c = v[i];
            assert(rest.drop_first() =~= v@.skip(i + 1));
            out.push(c);
            proof {
                let x = unescape(v@.skip(i + 1));
                if x is Some {
                    assert(pre + (seq![c] + x->0) =~= out@ + x->0);
                }
            }
            i = i + 1;
        }
    }
    assert(v@.skip(i as int).len() == 0);
    assert(out@ + Seq::<char>::empty() =~= out@);
    Some(out)
}

fn is_other_header_line(l: &Vec<char>) -> (r: bool)
    ensures
        r == is_other_header(l@),
{
    if l.len() == 0 || l[0] != '[' {
        return false;
    }
    let t = trim_chars(l);
    let h = vec!['[', 'D', 'e', 's', 'k', 't', 'o', 'p', ' ', 'E', 'n', 't', 'r', 'y', ']'];
    assert(h@ =~= main_header());
    !chars_eq(&t, &h)
}

/// The value of the first line whose key is `key`.
pub fn find_value(ls: &Vec<Vec<char>>, key: &Vec<char>) -> (r: Option<Vec<char>>)
    ensures
        match r {
            Some(v) => lookup(views(ls@), key@) == Some(v@),
            None => lookup(views(ls@), key@) is None,
        },
{
    let mut i: usize = 0;
    assert(views(ls@).skip(0) =~= views(ls@));
    while i < ls.len()
        invariant
            i <= ls.len(),
            lookup(views(ls@), key@) == lookup(views(ls@).skip(i as int), key@),
        decreases ls.len() - i,
    {
        let ghost rest = views(ls@).skip(i as int);
        assert(rest.drop_first() =~= views(ls@).skip(i + 1));
        assert(rest[0] == ls@[i as int]@);
        if is_other_header_line(&ls[i]) {
            return None;
        }
        match entry_of(&ls[i]) {
            Some((k, v)) => {
                if chars_eq(&k, key) {
                    return Some(v);
                }
            },
            None => {},
        }
        i = i + 1;
    }
    assert(views(ls@).skip(i as int).len() == 0);
    None
}


/// One launchable application.
#[derive(Debug, Clone)]
pub struct AppInfo {
    pub name: String,
    pub command: String,
    pub icon: Option<String>,
}

pub open spec fn opt_view(o: Option<String>) -> Option<Seq<char>> {
    match o {
        Some(s) => Some(s@),
        None => None,
    }
}

impl View for AppInfo {
    type V = (Seq<char>, Seq<char>, Option<Seq<char>>);

    open spec fn view(&self) -> Self::V {
        (self.name@, self.command@, opt_view(self.icon))
    }
}

/// Why a descriptor gave no application.
#[derive(Debug, Clone, Copy, PartialEq, Eq, Structural)]
pub enum ParseError {
    /// `Name` or `Exec` is absent, or empty once the command is sanitized.
    MissingField,
}

fn name_key_chars() -> (r: Vec<char>)
    ensures
        r@ == name_key(),
{
    let r = vec!['N', 'a', 'm', 'e'];
    assert(r@ =~= name_key());
    r
}

fn localized_key_chars(lc: &Vec<char>) -> (r: Vec<char>)
    ensures
        r@ == localized_key(lc@),
{
    let mut r = name_key_chars();
    r.push('[');
    let mut i: usize = 0;
    let ghost pre = r@;
    while i < lc.len()
        invariant
            i <= lc.len(),
            r@ == pre + lc@.take(i as int),
        decreases lc.len() - i,
    {
        r.push(lc[i]);
        i = i + 1;
        assert(r@ =~= pre + lc@.take(i as int));
    }
    assert(lc@.take(lc.len() as int) =~= lc@);
    r.push(']');
    assert(r@ =~= localized_key(lc@));
    r
}

/// The language part of a locale.
fn language_of(lc: &Vec<char>) -> (r: Option<Vec<char>>)
    ensures
        match r {
            Some(g) => locale_language(lc@) == Some(g@),
            None => locale_language(lc@) is None,
        },
{
    let mut k: usize = 0;
    while k < lc.len() && lc[k] != '_'
        invariant
            k <= lc.len(),
            forall|j: int| 0 <= j < k ==> lc@[j] != '_',
        decreases lc.len() - k,
    {
        k = k + 1;
    }
    if k == lc.len() {
        assert(!exists|k: int| is_first_underscore(lc@, k));
        return None;
    }
    assert(is_first_underscore(lc@, k as int));
    let ghost c = choose|k: int| is_first_underscore(lc@, k);
    assert(c == k) by {
        if c < k {
            assert(lc@[c] != '_');
        } else if c > k {
            assert(lc@[k as int] != '_');
        }
    }
    let mut g: Vec<char> = Vec::new();
    let mut i: usize = 0;
    while i < k
        invariant
            i <= k < lc.len(),
            g@ == lc@.take(i as int),
        decreases k - i,
    {
        g.push(lc[i]);
        i = i + 1;
        assert(g@ =~= lc@.take(i as int));
    }
    Some(g)
}

/// The name under one locale.
fn find_name_for_locale(ls: &Vec<Vec<char>>, locale: &String) -> (r: Option<Vec<char>>)
    ensures
        match r {
            Some(v) => name_for_locale(views(ls@), locale@) == Some(v@),
            None => name_for_locale(views(ls@), locale@) is None,
        },
{
    let lc = chars_of(locale.as_str());
    let found = find_value(ls, &localized_key_chars(&lc));
    if found.is_some() {
        return found;
    }
    match language_of(&lc) {
        Some(g) => find_value(ls, &localized_key_chars(&g)),
        None => None,
    }
}

/// The name for the preferred locale, or the bare name.
fn find_name(ls: &Vec<Vec<char>>, locales: &[String]) -> (r: Option<Vec<char>>)
    ensures
        match r {
            Some(v) => localized_name(views(ls@), string_views(locales@)) == Some(v@),
            None => localized_name(views(ls@), string_views(locales@)) is None,
        },
{
    let mut i: usize = 0;
    assert(string_views(locales@).skip(0) =~= string_views(locales@));
    while i < locales.len()
        invariant
            i <= locales.len(),
            localized_name(views(ls@), string_views(locales@)) == localized_name(
                views(ls@),
                string_views(locales@).skip(i as int),
            ),
        decreases locales.len() - i,
    {
        let ghost rest = string_views(locales@).skip(i as int);
        assert(rest.drop_first() =~= string_views(locales@).skip(i + 1));
        assert(rest[0] == locales@[i as int]@);
        let found = find_name_for_locale(ls, &locales[i]);
        if found.is_some() {
            return found;
        }
        i = i + 1;
    }
    assert(string_views(locales@).skip(i as int).len() == 0);
    find_value(ls, &name_key_chars())
}

/// Parses one descriptor: `Key=Value` lines, the first line of each key
/// counting, up to the first header of a group other than `[Desktop Entry]`;
/// values are unescaped. `Name` and `Exec` are required. The name is `Name[<locale>]`, or `Name[<language>]` with the part
/// of the locale before its first `_`, for the first of `locales` that has
/// one, else `Name`; the command is `Exec` with its placeholders removed; the
/// icon is the `Icon` value as it stands. Other keys and lines without `=` are
/// skipped.
pub fn parse_desktop_entry(text: &str, locales: &[String]) -> (r: Result<AppInfo, ParseError>)
    ensures
        match r {
            Ok(a) => parsed(text@, string_views(locales@)) == Some(a@),
            Err(e) => e == ParseError::MissingField && parsed(text@, string_views(locales@))
                is None,
        },
{
    let cs = chars_of(text);
    let ls = split_lines(&cs);
    if find_value(&ls, &name_key_chars()).is_none() {
        return Err(ParseError::MissingField);
    }
    let name = match find_name(&ls, locales) {
        Some(n) => n,
        None => return Err(ParseError::MissingField),
    };
    let exec_chars = vec!['E', 'x', 'e', 'c'];
    assert(exec_chars@ =~= exec_key());
    let exec = match find_value(&ls, &exec_chars) {
        Some(e) => e,
        None => return Err(ParseError::MissingField),
    };
    let command = sanitize_chars(&exec);
    if name.len() == 0 || command.len() == 0 {
        return Err(ParseError::MissingField);
    }
    let icon_chars = vec!['I', 'c', 'o', 'n'];
    assert(icon_chars@ =~= icon_key());
    let icon = match find_value(&ls, &icon_chars) {
        Some(v) => Some(string_of(&v)),
        None => None,
    };
    Ok(AppInfo { name: string_of(&name), command: string_of(&command), icon })
}

/// A descriptor with no `Exec` line or no bare `Name` line gives no record,
/// whatever localized names it has.
pub proof fn lemma_missing_field_rejected(text: Seq<char>, locales: Seq<Seq<char>>)
    requires
        lookup(lines(text), exec_key()) is None || lookup(lines(text), name_key()) is None,
    ensures
        parsed(text, locales) is None,
{
}

} // verus!
