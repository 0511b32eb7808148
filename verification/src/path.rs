//! Paths whose components are separated by slashes.

use crate::text::{chars_of, push_chars};
use vstd::prelude::*;

verus! {

broadcast use vstd::string::group_string_axioms;

/// The first slash of `s` at or after `from`, or the length of `s`.
pub open spec fn slash_from(s: Seq<char>, from: int) -> int
    decreases s.len() - from,
{
    if from >= s.len() {
        s.len() as int
    } else if s[from] == '/' {
        from
    } else {
        slash_from(s, from + 1)
    }
}

/// The last slash of `s` before `to`, or -1.
pub open spec fn slash_before(s: Seq<char>, to: int) -> int
    decreases to,
{
    if to <= 0 {
        -1
    } else if s[to - 1] == '/' {
        to - 1
    } else {
        slash_before(s, to - 1)
    }
}

/// The path without its last component and the slash before it; empty where there
/// is no slash.
pub open spec fn parent_path(s: Seq<char>) -> Seq<char> {
    if slash_before(s, s.len() as int) < 0 {
        Seq::empty()
    } else {
        s.take(slash_before(s, s.len() as int))
    }
}

/// The last component of a path.
pub open spec fn base_name(s: Seq<char>) -> Seq<char> {
    s.skip(slash_before(s, s.len() as int) + 1)
}

/// The components of `s` from position `from` on.
pub open spec fn components_from(s: Seq<char>, from: int) -> Seq<Seq<char>>
    decreases s.len() - from,
    when 0 <= from <= s.len()
    via components_from_decreases
{
    let end = slash_from(s, from);
    if end >= s.len() {
        seq![s.skip(from)]
    } else {
        seq![s.subrange(from, end)] + components_from(s, end + 1)
    }
}

#[via_fn]
proof fn components_from_decreases(s: Seq<char>, from: int) {
    lemma_slash_from(s, from);
}

/// The components of a path: what lies between its slashes, one more than there are slashes.
pub open spec fn components(s: Seq<char>) -> Seq<Seq<char>> {
    components_from(s, 0)
}

/// A path has at least one component from each position on.
pub proof fn lemma_components_from(s: Seq<char>, from: int)
    requires
        0 <= from <= s.len(),
    ensures
        components_from(s, from).len() > 0,
{
    lemma_slash_from(s, from);
}

/// What [`slash_from`] finds.
pub proof fn lemma_slash_from(s: Seq<char>, from: int)
    requires
        0 <= from <= s.len(),
    ensures
        from <= slash_from(s, from) <= s.len(),
        slash_from(s, from) < s.len() ==> s[slash_from(s, from)] == '/',
        forall|k: int| from <= k < slash_from(s, from) ==> #[trigger] s[k] != '/',
    decreases s.len() - from,
{
    if from < s.len() && s[from] != '/' {
        lemma_slash_from(s, from + 1);
    }
}

/// What [`slash_before`] finds.
pub proof fn lemma_slash_before(s: Seq<char>, to: int)
    requires
        0 <= to <= s.len(),
    ensures
        -1 <= slash_before(s, to) < to || (to == 0 && slash_before(s, to) == -1),
        slash_before(s, to) >= 0 ==> s[slash_before(s, to)] == '/',
        forall|k: int| slash_before(s, to) < k < to ==> #[trigger] s[k] != '/',
    decreases to,
{
    if to > 0 && s[to - 1] != '/' {
        lemma_slash_before(s, to - 1);
    }
}

/// A path is its parent, a slash and its last component, or its last component alone.
pub proof fn law_path_parts(s: Seq<char>)
    ensures
        slash_before(s, s.len() as int) >= 0 ==> s == parent_path(s) + seq!['/'] + base_name(s),
        slash_before(s, s.len() as int) < 0 ==> s == base_name(s),
        forall|k: int| 0 <= k < base_name(s).len() ==> #[trigger] base_name(s)[k] != '/',
{
    let at = slash_before(s, s.len() as int);
    lemma_slash_before(s, s.len() as int);
    if at >= 0 {
        assert(s =~= parent_path(s) + seq!['/'] + base_name(s));
    } else {
        assert(s =~= base_name(s));
    }
    assert forall|k: int| 0 <= k < base_name(s).len() implies #[trigger] base_name(s)[k]
        != '/' by {
        assert(base_name(s)[k] == s[at + 1 + k]);
    }
}

/// No slash in a name.
pub open spec fn is_plain(name: Seq<char>) -> bool {
    forall|k: int| 0 <= k < name.len() ==> #[trigger] name[k] != '/'
}

/// Where a text is plain up to `end` and a slash or the end of the text comes next,
/// that is where the first slash is looked for and found.
pub proof fn lemma_slash_at(s: Seq<char>, from: int, end: int)
    requires
        0 <= from <= end <= s.len(),
        end < s.len() ==> s[end] == '/',
        forall|k: int| from <= k < end ==> #[trigger] s[k] != '/',
    ensures
        slash_from(s, from) == end,
    decreases end - from,
{
    if from < end {
        lemma_slash_at(s, from + 1, end);
    }
}

/// What stands in front of a position does not matter to the components from there on.
proof fn lemma_components_shift(front: Seq<char>, s: Seq<char>, from: int)
    requires
        0 <= from <= s.len(),
    ensures
        components_from(front + s, front.len() + from) == components_from(s, from),
    decreases s.len() - from,
{
    let all = front + s;
    let end = slash_from(s, from);
    lemma_slash_from(s, from);
    assert forall|k: int| front.len() + from <= k < front.len() + end implies #[trigger] all[k]
        != '/' by {
        assert(all[k] == s[k - front.len()]);
    }
    lemma_slash_at(all, front.len() + from, front.len() + end);
    if end < s.len() {
        lemma_components_shift(front, s, end + 1);
        assert(all.subrange(front.len() + from, front.len() + end) =~= s.subrange(from, end));
    } else {
        assert(all.skip(front.len() + from) =~= s.skip(from));
    }
}

/// Where a text is plain from `at` on and a slash or the start of the text comes
/// before, that is where the last slash is found.
proof fn lemma_slash_last(s: Seq<char>, at: int, to: int)
    requires
        -1 <= at < to <= s.len() || (at == -1 && to == 0),
        at >= 0 ==> s[at] == '/',
        forall|k: int| at < k < to ==> #[trigger] s[k] != '/',
    ensures
        slash_before(s, to) == at,
    decreases to - at,
{
    if to > at + 1 {
        lemma_slash_last(s, at, to - 1);
    }
}

/// A plain name behind nothing, or behind a slash, is the last component of the path.
pub proof fn law_base_name_of_name(prefix: Seq<char>, name: Seq<char>)
    requires
        is_plain(name),
        prefix.len() == 0 || prefix.last() == '/',
    ensures
        base_name(prefix + name) == name,
{
    let all = prefix + name;
    assert forall|k: int| prefix.len() <= k < all.len() implies #[trigger] all[k] != '/' by {
        assert(all[k] == name[k - prefix.len()]);
    }
    lemma_slash_last(all, prefix.len() - 1, all.len() as int);
    assert(base_name(all) =~= name);
}

/// A plain name is a path of one component.
pub proof fn law_name_is_component(name: Seq<char>)
    requires
        is_plain(name),
    ensures
        components(name) == seq![name],
{
    lemma_slash_at(name, 0, name.len() as int);
    assert(name.skip(0) =~= name);
}

/// A plain name in front of a path is one component more.
pub proof fn law_name_leads_path(name: Seq<char>, path: Seq<char>)
    requires
        is_plain(name),
    ensures
        components(name + seq!['/'] + path) == seq![name] + components(path),
{
    let front = name + seq!['/'];
    let all = front + path;
    assert forall|k: int| 0 <= k < name.len() implies #[trigger] all[k] != '/' by {
        assert(all[k] == name[k]);
    }
    lemma_slash_at(all, 0, name.len() as int);
    lemma_components_shift(front, path, 0);
    assert(all.subrange(0, name.len() as int) =~= name);
}

/// What comes before the first slash of a plain name is the name, also in front of a path.
pub proof fn law_name_is_head(name: Seq<char>, path: Seq<char>)
    requires
        is_plain(name),
    ensures
        head_of(name) == name,
        tail_of(name).len() == 0,
        head_of(name + seq!['/'] + path) == name,
        tail_of(name + seq!['/'] + path) == path,
{
    let all = name + seq!['/'] + path;
    assert forall|k: int| 0 <= k < name.len() implies #[trigger] all[k] != '/' by {
        assert(all[k] == name[k]);
    }
    lemma_slash_at(name, 0, name.len() as int);
    lemma_slash_at(all, 0, name.len() as int);
    assert(head_of(name) =~= name);
    assert(head_of(all) =~= name);
    assert(tail_of(all) =~= path);
}

/// A path is one component, or its first component, a slash and the others.
pub proof fn law_components_split(s: Seq<char>)
    ensures
        is_plain(head_of(s)),
        slash_from(s, 0) >= s.len() ==> s == head_of(s) && components(s) == seq![head_of(s)],
        slash_from(s, 0) < s.len() ==> s == head_of(s) + seq!['/'] + tail_of(s) && components(s)
            == seq![head_of(s)] + components(tail_of(s)),
{
    let end = slash_from(s, 0);
    let head = head_of(s);
    lemma_slash_from(s, 0);
    assert forall|k: int| 0 <= k < head.len() implies #[trigger] head[k] != '/' by {
        assert(head[k] == s[k]);
    }
    if end < s.len() {
        assert(s =~= head + seq!['/'] + tail_of(s));
        law_name_leads_path(head, tail_of(s));
    } else {
        assert(s =~= head);
        law_name_is_component(s);
    }
}

/// Whether `path` is that of something below the directory `dir`: it continues `dir`
/// with a slash.
pub open spec fn starts_below(path: Seq<char>, dir: Seq<char>) -> bool {
    path.len() > dir.len() && path.take(dir.len() as int) == dir && path[dir.len() as int] == '/'
}

/// What lies below a directory has the first component of the directory.
pub proof fn law_below_has_head(path: Seq<char>, dir: Seq<char>)
    requires
        starts_below(path, dir),
    ensures
        head_of(path) == head_of(dir),
{
    let end = slash_from(dir, 0);
    lemma_slash_from(dir, 0);
    assert forall|k: int| 0 <= k < dir.len() implies #[trigger] path[k] == dir[k] by {
        assert(path.take(dir.len() as int)[k] == path[k]);
    }
    lemma_slash_at(path, 0, end);
    assert(head_of(path) =~= head_of(dir));
}

/// A prefix that both have does not matter to whether a path lies below a directory.
pub proof fn law_below_prefix(prefix: Seq<char>, path: Seq<char>, dir: Seq<char>)
    ensures
        starts_below(prefix + path, prefix + dir) == starts_below(path, dir),
{
    let (p, d) = (prefix + path, prefix + dir);
    if path.len() > dir.len() {
        assert(p[d.len() as int] == path[dir.len() as int]);
        assert(p.take(d.len() as int) =~= prefix + path.take(dir.len() as int));
        if p.take(d.len() as int) == d {
            assert(path.take(dir.len() as int) =~= (prefix + path.take(dir.len() as int)).skip(
                prefix.len() as int,
            ));
            assert(dir =~= d.skip(prefix.len() as int));
        }
    }
}

/// Split a path into its parent and its last component.
pub fn split_last(path: &str) -> (parts: (String, String))
    ensures
        parts.0@ == parent_path(path@),
        parts.1@ == base_name(path@),
{
    let chars: Vec<char> = chars_of(path);
    let len: usize = chars.len();
    let mut to: usize = len;
    while to > 0 && chars[to - 1] != '/'
        invariant
            to <= len,
            len == chars@.len(),
            chars@ == path@,
            slash_before(path@, len as int) == slash_before(path@, to as int),
        decreases to,
    {
        to = to - 1;
    }
    let mut parent: String = String::new();
    let mut name: String = String::new();
    if to > 0 {
        push_chars(&mut parent, &chars, 0, to - 1);
    }
    push_chars(&mut name, &chars, to, len);
    assert(parent@ =~= parent_path(path@));
    assert(name@ =~= base_name(path@));
    (parent, name)
}

/// Split a path at its first slash: what comes before and what comes after. Where
/// there is no slash, nothing comes after.
pub fn split_first(path: &str) -> (parts: (String, String))
    ensures
        parts.0@ == head_of(path@),
        parts.1@ == tail_of(path@),
{
    let chars: Vec<char> = chars_of(path);
    let len: usize = chars.len();
    let mut at: usize = 0;
    while at < len && chars[at] != '/'
        invariant
            at <= len,
            len == chars@.len(),
            chars@ == path@,
            slash_from(path@, 0) == slash_from(path@, at as int),
        decreases len - at,
    {
        at = at + 1;
    }
    let mut head: String = String::new();
    let mut tail: String = String::new();
    push_chars(&mut head, &chars, 0, at);
    if at < len {
        push_chars(&mut tail, &chars, at + 1, len);
    }
    assert(head@ =~= head_of(path@));
    assert(tail@ =~= tail_of(path@));
    (head, tail)
}

/// What comes before the first slash of a path.
pub open spec fn head_of(s: Seq<char>) -> Seq<char> {
    s.take(slash_from(s, 0))
}

/// What comes after the first slash of a path; empty where there is none.
pub open spec fn tail_of(s: Seq<char>) -> Seq<char> {
    if slash_from(s, 0) < s.len() {
        s.skip(slash_from(s, 0) + 1)
    } else {
        Seq::empty()
    }
}

/// The texts that a list of strings holds.
pub open spec fn texts(list: Seq<String>) -> Seq<Seq<char>> {
    Seq::new(list.len(), |i: int| list[i]@)
}

/// Cut a path at its slashes.
pub fn split_components(path: &str) -> (parts: Vec<String>)
    ensures
        texts(parts@) == components(path@),
{
    let chars: Vec<char> = chars_of(path);
    let len: usize = chars.len();
    let mut parts: Vec<String> = Vec::new();
    let mut from: usize = 0;
    let mut at: usize = 0;
    assert(texts(parts@) + components_from(path@, 0) =~= components(path@));
    while at < len
        invariant
            from <= at <= len,
            len == chars@.len(),
            chars@ == path@,
            slash_from(path@, from as int) == slash_from(path@, at as int),
            texts(parts@) + components_from(path@, from as int) == components(path@),
        decreases len - at,
    {
        if chars[at] == '/' {
            let mut part: String = String::new();
            push_chars(&mut part, &chars, from, at);
            let ghost before = texts(parts@);
            parts.push(part);
            assert(texts(parts@) =~= before.push(path@.subrange(from as int, at as int)));
            assert(before + (seq![path@.subrange(from as int, at as int)] + components_from(
                path@,
                at + 1,
            )) =~= texts(parts@) + components_from(path@, at + 1));
            from = at + 1;
        }
        at = at + 1;
    }
    let mut part: String = String::new();
    push_chars(&mut part, &chars, from, len);
    assert(part@ =~= path@.skip(from as int));
    let ghost before = texts(parts@);
    parts.push(part);
    assert(texts(parts@) =~= before + seq![path@.skip(from as int)]);
    parts
}

/// `relative` as a path from `base` on; a path that starts with a slash stands for
/// itself.
pub open spec fn joined(base: Seq<char>, relative: Seq<char>) -> Seq<char> {
    if relative.len() > 0 && relative[0] == '/' {
        relative
    } else if base.len() == 0 || base.last() == '/' {
        base + relative
    } else {
        base + seq!['/'] + relative
    }
}

/// Join two paths.
pub fn join_path(base: &str, relative: &str) -> (path: String)
    ensures
        path@ == joined(base@, relative@),
{
    if !relative.is_empty() && relative.get_char(0) == '/' {
        return relative.to_owned();
    }
    let mut path: String = base.to_owned();
    let len: usize = base.unicode_len();
    if len > 0 && base.get_char(len - 1) != '/' {
        path.push('/');
    }
    path.append(relative);
    assert(path@ =~= joined(base@, relative@));
    path
}

/// The last of the first `n` components that is neither empty nor a single dot.
pub open spec fn last_named(parts: Seq<Seq<char>>, n: int) -> Option<Seq<char>>
    decreases n,
{
    if n <= 0 {
        None
    } else if parts[n - 1].len() == 0 || parts[n - 1] == seq!['.'] {
        last_named(parts, n - 1)
    } else {
        Some(parts[n - 1])
    }
}

/// The file that a path names: its last component, or the path itself where that
/// leads elsewhere.
pub open spec fn file_name_of(path: Seq<char>) -> Seq<char> {
    match last_named(components(path), components(path).len() as int) {
        Some(name) => if name == seq!['.', '.'] {
            path
        } else {
            name
        },
        None => path,
    }
}

/// The last component of an output path, as a display string.
pub fn file_name(out: &str) -> (name: String)
    ensures
        name@ == file_name_of(out@),
{
    let parts: Vec<String> = split_components(out);
    let mut n: usize = parts.len();
    while n > 0
        invariant
            n <= parts@.len(),
            texts(parts@) == components(out@),
            last_named(components(out@), parts@.len() as int) == last_named(
                components(out@),
                n as int,
            ),
        decreases n,
    {
        let chars: Vec<char> = chars_of(parts[n - 1].as_str());
        assert(chars@ == components(out@)[n - 1]);
        if chars.len() == 0 || (chars.len() == 1 && chars[0] == '.') {
            assert(chars@.len() == 0 || chars@ =~= seq!['.']);
            n = n - 1;
        } else {
            assert(chars@.len() == 1 ==> chars@[0] != '.');
            assert(chars@ != seq!['.']);
            if chars.len() == 2 && chars[0] == '.' && chars[1] == '.' {
                assert(chars@ =~= seq!['.', '.']);
                return out.to_owned();
            }
            assert(chars@ != seq!['.', '.']) by {
                if chars@ == seq!['.', '.'] {
                    assert(chars@.len() == 2 && chars@[0] == '.' && chars@[1] == '.');
                }
            }
            return parts[n - 1].clone();
        }
    }
    out.to_owned()
}

} // verus!
