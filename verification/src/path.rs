//! Paths: components, normal forms and containment at the root.

use vstd::prelude::*;

use crate::text;

verus! {

/// The pieces of a text between the characters `c`, from index `i` on.
pub open spec fn split_from(s: Seq<char>, c: char, i: int) -> Seq<Seq<char>>
    decreases s.len() - i,
{
    let end = text::find_from(s, c, i);
    if i < 0 || i > s.len() || end >= s.len() {
        seq![s.subrange(i, s.len() as int)]
    } else {
        proof {
            text::lemma_find_from(s, c, i);
        }
        seq![s.subrange(i, end)] + split_from(s, c, end + 1)
    }
}

/// The pieces of a text between the characters `c`.
pub open spec fn split(s: Seq<char>, c: char) -> Seq<Seq<char>> {
    split_from(s, c, 0)
}

/// A text has at least one component.
pub proof fn lemma_split_not_empty(s: Seq<char>, c: char)
    ensures
        split(s, c).len() > 0,
{
}

/// The pieces of a text between the characters `c`.
pub fn split_char(s: &str, c: char) -> (r: Vec<String>)
    ensures
        text::texts(r@) == split(s@, c),
{
    let chars = text::to_chars(s);
    let mut r: Vec<String> = Vec::new();
    let mut from: usize = 0;
    proof {
        assert(text::texts(r@) =~= seq![]);
        assert(text::texts(r@) + split_from(s@, c, 0) =~= split(s@, c));
    }
    loop
        invariant
            chars@ == s@,
            from <= chars@.len(),
            text::texts(r@) + split_from(s@, c, from as int) == split(s@, c),
        decreases chars@.len() - from,
    {
        let mut end: usize = from;
        while end < chars.len() && chars[end] != c
            invariant
                chars@ == s@,
                from <= end <= chars@.len(),
                text::find_from(s@, c, end as int) == text::find_from(s@, c, from as int),
            decreases chars@.len() - end,
        {
            end = end + 1;
        }
        let piece = text::from_range(&chars, from, end);
        let ghost before = r@;
        r.push(piece);
        proof {
            assert(text::texts(r@) =~= text::texts(before).push(piece@));
        }
        if end >= chars.len() {
            proof {
                assert(text::texts(r@) =~= text::texts(before) + seq![piece@]);
            }
            return r;
        }
        proof {
            assert(text::texts(before) + (seq![piece@] + split_from(s@, c, end + 1))
                =~= text::texts(r@) + split_from(s@, c, end + 1));
        }
        from = end + 1;
    }
}

/// One component joins a path: nothing for an empty one or `.`, one level up for `..`.
pub open spec fn enter(parts: Seq<Seq<char>>, part: Seq<char>) -> Seq<Seq<char>> {
    if part.len() == 0 || part == seq!['.'] {
        parts
    } else if part == seq!['.', '.'] {
        if parts.len() > 0 {
            parts.drop_last()
        } else {
            parts
        }
    } else {
        parts.push(part)
    }
}

/// Where the first `n` components lead.
pub open spec fn walk(components: Seq<Seq<char>>, n: int) -> Seq<Seq<char>>
    decreases n,
{
    if n <= 0 {
        seq![]
    } else {
        enter(walk(components, n - 1), components[n - 1])
    }
}

/// The components of a path in normal form.
pub open spec fn normal_parts(path: Seq<char>) -> Seq<Seq<char>> {
    let components = split(path, '/');
    walk(components, components.len() as int)
}

/// The first `n` parts, each behind a slash.
pub open spec fn slashed(parts: Seq<Seq<char>>, n: int) -> Seq<char>
    decreases n,
{
    if n <= 0 {
        seq![]
    } else {
        slashed(parts, n - 1) + seq!['/'] + parts[n - 1]
    }
}

pub open spec fn render(parts: Seq<Seq<char>>) -> Seq<char> {
    if parts.len() == 0 {
        seq!['/']
    } else {
        slashed(parts, parts.len() as int)
    }
}

/// A path in normal form: absolute, without empty components, `.` or `..`.
pub open spec fn normalized(path: Seq<char>) -> Seq<char> {
    render(normal_parts(path))
}

/// Whether a text can stand between the slashes of a normal path.
pub open spec fn plain_part(part: Seq<char>) -> bool {
    &&& part.len() > 0
    &&& part != seq!['.']
    &&& part != seq!['.', '.']
    &&& !part.contains('/')
}

pub open spec fn plain_parts(parts: Seq<Seq<char>>) -> bool {
    forall|i: int| 0 <= i < parts.len() ==> plain_part(#[trigger] parts[i])
}

proof fn lemma_split_parts(s: Seq<char>, c: char, i: int)
    requires
        0 <= i <= s.len(),
    ensures
        forall|k: int|
            0 <= k < split_from(s, c, i).len() ==> !(#[trigger] split_from(s, c, i)[k]).contains(
                c,
            ),
        split_from(s, c, i).len() > 0,
    decreases s.len() - i,
{
    text::lemma_find_from(s, c, i);
    let end = text::find_from(s, c, i);
    if end < s.len() {
        lemma_split_parts(s, c, end + 1);
        let rest = split_from(s, c, end + 1);
        let all = split_from(s, c, i);
        assert forall|k: int| 0 <= k < all.len() implies !(#[trigger] all[k]).contains(c) by {
            if k == 0 {
                assert(all[0] =~= s.subrange(i, end));
            } else {
                assert(all[k] == rest[k - 1]);
            }
        }
    }
}

proof fn lemma_walk_plain(components: Seq<Seq<char>>, n: int)
    requires
        0 <= n <= components.len(),
        forall|k: int| 0 <= k < components.len() ==> !(#[trigger] components[k]).contains('/'),
    ensures
        plain_parts(walk(components, n)),
    decreases n,
{
    if n > 0 {
        lemma_walk_plain(components, n - 1);
        let before = walk(components, n - 1);
        let part = components[n - 1];
        assert(part.len() == 0 ==> part =~= seq![]);
        assert forall|i: int| 0 <= i < walk(components, n).len() implies plain_part(
            #[trigger] walk(components, n)[i],
        ) by {
            if i < before.len() {
                assert(plain_part(before[i]));
            }
        }
    }
}

/// `..` is contained at the root: a path in normal form is absolute, and none of its components
/// is empty, `.` or `..`, or holds a slash.
pub proof fn law_normalized_paths_are_contained(path: Seq<char>)
    ensures
        plain_parts(normal_parts(path)),
        normalized(path).len() > 0,
        normalized(path)[0] == '/',
{
    lemma_split_parts(path, '/', 0);
    let components = split(path, '/');
    lemma_walk_plain(components, components.len() as int);
    lemma_slashed_starts(normal_parts(path), normal_parts(path).len() as int);
}

proof fn lemma_slashed_starts(parts: Seq<Seq<char>>, n: int)
    requires
        0 <= n <= parts.len(),
    ensures
        n > 0 ==> slashed(parts, n).len() > 0 && slashed(parts, n)[0] == '/',
    decreases n,
{
    if n > 1 {
        lemma_slashed_starts(parts, n - 1);
    } else if n == 1 {
        assert(slashed(parts, 0) =~= seq![]);
        assert(slashed(parts, 1) =~= seq!['/'] + parts[0]);
    }
}

/// The slashes from the first part's on, with the parts from `k` on.
spec fn slashed_from(parts: Seq<Seq<char>>, k: int) -> Seq<char>
    decreases parts.len() - k,
{
    if k < 0 || k >= parts.len() {
        seq![]
    } else {
        seq!['/'] + parts[k] + slashed_from(parts, k + 1)
    }
}

proof fn lemma_slashed_both_ways(parts: Seq<Seq<char>>, k: int)
    requires
        0 <= k <= parts.len(),
    ensures
        slashed(parts, k) + slashed_from(parts, k) == slashed(parts, parts.len() as int),
    decreases parts.len() - k,
{
    if k < parts.len() {
        lemma_slashed_both_ways(parts, k + 1);
        assert(slashed(parts, k) + (seq!['/'] + parts[k] + slashed_from(parts, k + 1)) =~= (slashed(
            parts,
            k,
        ) + seq!['/'] + parts[k]) + slashed_from(parts, k + 1));
    } else {
        assert(slashed(parts, k) + seq![] =~= slashed(parts, k));
    }
}

proof fn lemma_find_skips(s: Seq<char>, c: char, i: int, j: int)
    requires
        0 <= i <= j <= s.len(),
        forall|k: int| i <= k < j ==> s[k] != c,
    ensures
        text::find_from(s, c, i) == text::find_from(s, c, j),
    decreases j - i,
{
    if i < j {
        lemma_find_skips(s, c, i + 1, j);
    }
}

/// Splitting gives back the parts that were put behind slashes.
proof fn lemma_split_slashed(s: Seq<char>, i: int, parts: Seq<Seq<char>>, k: int)
    requires
        0 <= k < parts.len(),
        plain_parts(parts),
        0 <= i <= s.len(),
        s.skip(i) == parts[k] + slashed_from(parts, k + 1),
    ensures
        split_from(s, '/', i) == parts.skip(k),
    decreases parts.len() - k,
{
    let part = parts[k];
    let rest = slashed_from(parts, k + 1);
    let end = i + part.len();
    assert(plain_part(part));
    assert(s.skip(i).len() == (part + rest).len());
    assert forall|j: int| i <= j < end implies s[j] != '/' by {
        assert(s[j] == s.skip(i)[j - i]);
        assert(s.skip(i)[j - i] == part[j - i]);
        assert(part.contains(part[j - i]));
    }
    lemma_find_skips(s, '/', i, end);
    assert(s.subrange(i, end) =~= part) by {
        assert forall|j: int| 0 <= j < part.len() implies s.subrange(i, end)[j] == part[j] by {
            assert(s.subrange(i, end)[j] == s.skip(i)[j]);
        }
    }
    if k + 1 < parts.len() {
        assert(rest[0] == '/');
        assert(s[end] == s.skip(i)[part.len() as int]);
        assert(s[end] == '/');
        assert(text::find_from(s, '/', end) == end);
        assert(s.skip(end + 1) =~= parts[k + 1] + slashed_from(parts, k + 2)) by {
            assert forall|j: int| 0 <= j < s.skip(end + 1).len() implies #[trigger] s.skip(end + 1)[j] == (
            parts[k + 1] + slashed_from(parts, k + 2))[j] by {
                assert(s.skip(end + 1)[j] == s.skip(i)[part.len() + 1 + j]);
                assert(s.skip(i)[part.len() + 1 + j] == rest[1 + j]);
            }
        }
        lemma_split_slashed(s, end + 1, parts, k + 1);
        assert(parts.skip(k) =~= seq![part] + parts.skip(k + 1));
    } else {
        assert(rest.len() == 0);
        assert(text::find_from(s, '/', end) == s.len());
        assert(parts.skip(k) =~= seq![part]);
    }
}

proof fn lemma_walk_of_plain(components: Seq<Seq<char>>, parts: Seq<Seq<char>>, n: int)
    requires
        plain_parts(parts),
        components == seq![Seq::<char>::empty()] + parts,
        0 <= n <= parts.len(),
    ensures
        walk(components, n + 1) == parts.take(n),
    decreases n,
{
    if n == 0 {
        assert(walk(components, 0) =~= seq![]);
        assert(components[0] =~= seq![]);
        assert(parts.take(0) =~= seq![]);
    } else {
        lemma_walk_of_plain(components, parts, n - 1);
        assert(components[n] == parts[n - 1]);
        assert(plain_part(parts[n - 1]));
        assert(parts.take(n) =~= parts.take(n - 1).push(parts[n - 1]));
    }
}

/// A path in normal form is its own normal form.
pub proof fn law_normalizing_twice_changes_nothing(path: Seq<char>)
    ensures
        normalized(normalized(path)) == normalized(path),
        normal_parts(normalized(path)) == normal_parts(path),
{
    law_normalized_paths_are_contained(path);
    let parts = normal_parts(path);
    let s = normalized(path);
    let components = split(s, '/');
    if parts.len() == 0 {
        let nothing: Seq<char> = seq![];
        assert(text::find_from(s, '/', 0) == 0);
        assert(text::find_from(s, '/', 1) == 1);
        assert(s.subrange(0, 0) =~= nothing);
        assert(s.subrange(1, 1) =~= nothing);
        assert(split_from(s, '/', 1) =~= seq![nothing]);
        assert(components =~= seq![nothing, nothing]);
        assert(walk(components, 0) =~= seq![]);
        assert(walk(components, 1) =~= seq![]);
        assert(walk(components, 2) =~= seq![]);
    } else {
        lemma_slashed_both_ways(parts, 0);
        assert(slashed(parts, 0) + slashed_from(parts, 0) =~= slashed_from(parts, 0));
        assert(s == seq!['/'] + parts[0] + slashed_from(parts, 1));
        assert(s.skip(1) =~= parts[0] + slashed_from(parts, 1));
        lemma_split_slashed(s, 1, parts, 0);
        assert(parts.skip(0) =~= parts);
        assert(text::find_from(s, '/', 0) == 0);
        assert(s.subrange(0, 0) =~= Seq::<char>::empty());
        assert(components =~= seq![Seq::<char>::empty()] + parts);
        lemma_walk_of_plain(components, parts, parts.len() as int);
        assert(parts.take(parts.len() as int) =~= parts);
    }
}

fn is_text(s: &str, literal: &'static str) -> (r: bool)
    ensures
        r == (s@ == literal@),
{
    text::str_eq(s, literal)
}

/// Brings a path into normal form.
pub fn normalize_absolute(path: &str) -> (r: String)
    ensures
        r@ == normalized(path@),
{
    let components = split_char(path, '/');
    let ghost all = split(path@, '/');
    let mut parts: Vec<String> = Vec::new();
    let mut i: usize = 0;
    proof {
        assert(text::texts(parts@) =~= seq![]);
        reveal_strlit(".");
        reveal_strlit("..");
        assert("."@ =~= seq!['.']);
        assert(".."@ =~= seq!['.', '.']);
    }
    while i < components.len()
        invariant
            i <= components@.len(),
            all == text::texts(components@),
            text::texts(parts@) == walk(all, i as int),
            "."@ == seq!['.'],
            ".."@ == seq!['.', '.'],
        decreases components@.len() - i,
    {
        let part = &components[i];
        proof {
            assert(all[i as int] == part@);
            assert(part@.len() == 0 ==> part@ =~= seq![]);
        }
        if part.as_str().is_empty() || is_text(part.as_str(), ".") {
        } else if is_text(part.as_str(), "..") {
            let ghost before = parts@;
            let _ = parts.pop();
            proof {
                if before.len() > 0 {
                    assert(text::texts(parts@) =~= text::texts(before).drop_last());
                }
            }
        } else {
            let ghost before = parts@;
            parts.push(part.clone());
            proof {
                assert(text::texts(parts@) =~= text::texts(before).push(part@));
            }
        }
        i = i + 1;
    }
    let ghost result = text::texts(parts@);
    let mut out = String::new();
    if parts.len() == 0 {
        out.push('/');
        proof {
            assert(out@ =~= seq!['/']);
        }
        return out;
    }
    let mut k: usize = 0;
    proof {
        assert(out@ =~= seq![]);
    }
    while k < parts.len()
        invariant
            k <= parts@.len(),
            result == text::texts(parts@),
            out@ == slashed(result, k as int),
        decreases parts@.len() - k,
    {
        let ghost before = out@;
        out.push('/');
        out.append(parts[k].as_str());
        proof {
            assert(result[k as int] == parts@[k as int]@);
            assert(out@ =~= before + seq!['/'] + parts@[k as int]@);
        }
        k = k + 1;
    }
    out
}

/// The path of an entry of a directory.
pub open spec fn joined_path(dir: Seq<char>, name: Seq<char>) -> Seq<char> {
    if dir == seq!['/'] {
        seq!['/'] + name
    } else {
        dir + seq!['/'] + name
    }
}

pub fn join_path(dir: &str, name: &str) -> (r: String)
    ensures
        r@ == joined_path(dir@, name@),
{
    proof {
        reveal_strlit("/");
        assert("/"@ =~= seq!['/']);
    }
    if text::str_eq(dir, "/") {
        text::concat2("/", name)
    } else {
        text::concat3(dir, "/", name)
    }
}

/// The absolute normal form of a path that is read from a directory.
pub open spec fn resolved(cwd: Seq<char>, path: Seq<char>) -> Seq<char> {
    normalized(
        if path.len() > 0 && path[0] == '/' {
            path
        } else {
            joined_path(cwd, path)
        },
    )
}

pub fn resolve(cwd: &str, path: &str) -> (r: String)
    ensures
        r@ == resolved(cwd@, path@),
{
    proof {
        reveal_strlit("/");
        assert("/"@ =~= seq!['/']);
        if text::starts_with(path@, "/"@) {
            assert(path@.take(1)[0] == '/');
        }
        if path@.len() > 0 && path@[0] == '/' {
            assert(path@.take(1) =~= seq!['/']);
        }
    }
    if text::has_prefix(path, "/") {
        normalize_absolute(path)
    } else {
        let joined = join_path(cwd, path);
        normalize_absolute(joined.as_str())
    }
}

/// Where a path ends without the slashes at its end.
pub open spec fn trimmed_end(s: Seq<char>, end: int) -> int
    decreases end,
{
    if 0 < end <= s.len() && s[end - 1] == '/' {
        trimmed_end(s, end - 1)
    } else {
        end
    }
}

/// Where the last component before `end` starts.
pub open spec fn component_start(s: Seq<char>, end: int) -> int
    decreases end,
{
    if 0 < end <= s.len() && s[end - 1] != '/' {
        component_start(s, end - 1)
    } else {
        end
    }
}

/// The last component of a path, or `/` where it has none.
pub open spec fn base_name(s: Seq<char>) -> Seq<char> {
    let end = trimmed_end(s, s.len() as int);
    if end <= 0 {
        seq!['/']
    } else {
        s.subrange(component_start(s, end), end)
    }
}

/// The last component of a path, or `/` where it has none.
pub fn basename(path: &str) -> (r: String)
    ensures
        r@ == base_name(path@),
{
    let chars = text::to_chars(path);
    let mut end: usize = chars.len();
    while end > 0 && chars[end - 1] == '/'
        invariant
            end <= chars@.len(),
            trimmed_end(chars@, end as int) == trimmed_end(chars@, chars@.len() as int),
        decreases end,
    {
        end = end - 1;
    }
    if end == 0 {
        let mut root = String::new();
        root.push('/');
        proof {
            assert(root@ =~= seq!['/']);
        }
        return root;
    }
    let mut start: usize = end;
    while start > 0 && chars[start - 1] != '/'
        invariant
            start <= end <= chars@.len(),
            component_start(chars@, start as int) == component_start(chars@, end as int),
        decreases start,
    {
        start = start - 1;
    }
    text::from_range(&chars, start, end)
}

/// The name of an entry of a directory has no slash in it.
pub proof fn law_base_name_is_one_component(s: Seq<char>)
    ensures
        base_name(s) == seq!['/'] || (base_name(s).len() > 0 && !base_name(s).contains('/')),
{
    lemma_trimmed_end(s, s.len() as int);
    let end = trimmed_end(s, s.len() as int);
    if end > 0 {
        lemma_component_start(s, end);
    }
}

proof fn lemma_trimmed_end(s: Seq<char>, end: int)
    requires
        0 <= end <= s.len(),
    ensures
        0 <= trimmed_end(s, end) <= end,
        trimmed_end(s, end) > 0 ==> s[trimmed_end(s, end) - 1] != '/',
    decreases end,
{
    if end > 0 && s[end - 1] == '/' {
        lemma_trimmed_end(s, end - 1);
    }
}

proof fn lemma_component_start(s: Seq<char>, end: int)
    requires
        0 <= end <= s.len(),
    ensures
        0 <= component_start(s, end) <= end,
        end > 0 && s[end - 1] != '/' ==> component_start(s, end) < end,
        forall|k: int| component_start(s, end) <= k < end ==> s[k] != '/',
    decreases end,
{
    if end > 0 && s[end - 1] != '/' {
        lemma_component_start(s, end - 1);
    }
}

// ---- paths that are put together ----

pub proof fn lemma_find_shifted(b: Seq<char>, z: Seq<char>, c: char, k: int, j: int)
    requires
        0 <= k,
        0 <= j <= b.len(),
        z.len() == k + b.len(),
        forall|x: int| 0 <= x < b.len() ==> #[trigger] b[x] == z[k + x],
    ensures
        text::find_from(z, c, k + j) == k + text::find_from(b, c, j),
    decreases b.len() - j,
{
    if j < b.len() {
        assert(b[j] == z[k + j]);
        if b[j] != c {
            lemma_find_shifted(b, z, c, k, j + 1);
        }
    }
}

proof fn lemma_split_shifted(b: Seq<char>, z: Seq<char>, c: char, k: int, j: int)
    requires
        0 <= k,
        0 <= j <= b.len(),
        z.len() == k + b.len(),
        forall|x: int| 0 <= x < b.len() ==> #[trigger] b[x] == z[k + x],
    ensures
        split_from(z, c, k + j) == split_from(b, c, j),
    decreases b.len() - j,
{
    lemma_find_shifted(b, z, c, k, j);
    text::lemma_find_from(b, c, j);
    let end = text::find_from(b, c, j);
    assert(z.subrange(k + j, k + end) =~= b.subrange(j, end));
    if end < b.len() {
        lemma_split_shifted(b, z, c, k, end + 1);
    }
}

proof fn lemma_split_concat(a: Seq<char>, b: Seq<char>, c: char, i: int)
    requires
        0 <= i <= a.len(),
    ensures
        split_from(a + seq![c] + b, c, i) == split_from(a, c, i) + split(b, c),
    decreases a.len() - i,
{
    let z = a + seq![c] + b;
    let end = text::find_from(a, c, i);
    text::lemma_find_from(a, c, i);
    assert forall|k: int| i <= k < end implies z[k] != c by {
        assert(z[k] == a[k]);
    }
    lemma_find_skips(z, c, i, end);
    assert(z[end] == c) by {
        if end < a.len() {
            assert(z[end] == a[end]);
        }
    }
    assert(text::find_from(z, c, i) == end);
    assert(z.subrange(i, end) =~= a.subrange(i, end));
    if end < a.len() {
        lemma_split_concat(a, b, c, end + 1);
        assert(seq![z.subrange(i, end)] + (split_from(a, c, end + 1) + split(b, c)) =~= (seq![
            a.subrange(i, end),
        ] + split_from(a, c, end + 1)) + split(b, c));
    } else {
        assert forall|x: int| 0 <= x < b.len() implies #[trigger] b[x] == z[a.len() + 1 + x] by {}
        lemma_split_shifted(b, z, c, a.len() as int + 1, 0);
        assert(z.subrange(i, end) == a.subrange(i, a.len() as int));
    }
}

/// Where the first `n` components lead from a directory.
spec fn walk_on(parts: Seq<Seq<char>>, components: Seq<Seq<char>>, n: int) -> Seq<Seq<char>>
    decreases n,
{
    if n <= 0 {
        parts
    } else {
        enter(walk_on(parts, components, n - 1), components[n - 1])
    }
}

proof fn lemma_walk_front(a: Seq<Seq<char>>, b: Seq<Seq<char>>, n: int)
    requires
        0 <= n <= a.len(),
    ensures
        walk(a + b, n) == walk(a, n),
    decreases n,
{
    if n > 0 {
        lemma_walk_front(a, b, n - 1);
        assert((a + b)[n - 1] == a[n - 1]);
    }
}

proof fn lemma_walk_on(a: Seq<Seq<char>>, b: Seq<Seq<char>>, n: int)
    requires
        0 <= n <= b.len(),
    ensures
        walk(a + b, a.len() + n) == walk_on(walk(a, a.len() as int), b, n),
    decreases n,
{
    if n == 0 {
        lemma_walk_front(a, b, a.len() as int);
    } else {
        lemma_walk_on(a, b, n - 1);
        assert((a + b)[a.len() + n - 1] == b[n - 1]);
    }
}

/// What stands behind a slash is walked from where the path before it leads.
proof fn lemma_parts_behind(a: Seq<char>, b: Seq<char>)
    ensures
        normal_parts(a + seq!['/'] + b) == walk_on(
            normal_parts(a),
            split(b, '/'),
            split(b, '/').len() as int,
        ),
{
    lemma_split_concat(a, b, '/', 0);
    lemma_walk_on(split(a, '/'), split(b, '/'), split(b, '/').len() as int);
}

proof fn lemma_one_component(part: Seq<char>)
    requires
        !part.contains('/'),
    ensures
        split(part, '/') == seq![part],
{
    law_texts_are_split_at_a_character(part, seq![], '/');
}

/// A text is split where the character stands: what stands before it and what stands behind it are
/// split for themselves, and a text without it is one piece.
pub proof fn law_texts_are_split_at_a_character(a: Seq<char>, b: Seq<char>, c: char)
    ensures
        split(a + seq![c] + b, c) == split(a, c) + split(b, c),
        !a.contains(c) ==> split(a, c) == seq![a],
{
    lemma_split_concat(a, b, c, 0);
    if !a.contains(c) {
        let n = a.len() as int;
        assert forall|k: int| 0 <= k < n implies a[k] != c by {
            assert(a.contains(a[k]));
        }
        lemma_find_skips(a, c, 0, n);
        assert(a.subrange(0, n) =~= a);
    }
}

/// A component behind a path leads to an entry of the directory that the path leads to. An empty
/// one and `.` lead nowhere else, and `..` leads one directory up, which is the root itself at the
/// root.
pub proof fn law_components_lead_on(path: Seq<char>, part: Seq<char>)
    requires
        !part.contains('/'),
    ensures
        ({
            let parts = normal_parts(path);
            let after = normal_parts(path + seq!['/'] + part);
            &&& part.len() == 0 || part == seq!['.'] ==> after == parts
            &&& part == seq!['.', '.'] && parts.len() == 0 ==> after.len() == 0
            &&& part == seq!['.', '.'] && parts.len() > 0 ==> after == parts.drop_last()
            &&& part.len() > 0 && part != seq!['.'] && part != seq!['.', '.'] ==> after
                == parts.push(part)
        }),
        normal_parts(seq![]).len() == 0,
        normal_parts(seq!['/']).len() == 0,
{
    lemma_one_component(part);
    lemma_parts_behind(path, part);
    reveal_with_fuel(walk_on, 2);
    let nothing: Seq<char> = seq![];
    lemma_one_component(nothing);
    reveal_with_fuel(walk, 2);
    assert(seq!['.'].len() == 1 && seq!['.', '.'].len() == 2);
    lemma_parts_behind(nothing, nothing);
    assert(nothing + seq!['/'] + nothing =~= seq!['/']);
}

/// A path in normal form writes its components behind slashes, and the root as one slash.
pub proof fn law_normal_paths_write_their_parts(parts: Seq<Seq<char>>, part: Seq<char>)
    ensures
        render(seq![]) == seq!['/'],
        render(seq![part]) == seq!['/'] + part,
        parts.len() > 0 ==> render(parts.push(part)) == render(parts) + seq!['/'] + part,
{
    reveal_with_fuel(slashed, 2);
    assert(slashed(seq![part], 1) =~= seq!['/'] + part);
    lemma_slashed_front(parts, part, parts.len() as int);
}

proof fn lemma_slashed_front(parts: Seq<Seq<char>>, part: Seq<char>, n: int)
    requires
        0 <= n <= parts.len(),
    ensures
        slashed(parts.push(part), n) == slashed(parts, n),
    decreases n,
{
    if n > 0 {
        lemma_slashed_front(parts, part, n - 1);
    }
}

/// An absolute path leads to the same place from everywhere.
pub proof fn law_absolute_paths_do_not_depend_on_the_directory(
    cwd: Seq<char>,
    other: Seq<char>,
    path: Seq<char>,
)
    requires
        path.len() > 0,
        path[0] == '/',
    ensures
        resolved(cwd, path) == resolved(other, path),
        resolved(cwd, path) == normalized(path),
{
}

/// A relative path leads from the directory that it is read from: two paths one behind the other,
/// with a slash between, lead where the second leads from where the first leads.
pub proof fn law_paths_lead_on_from_each_other(cwd: Seq<char>, a: Seq<char>, b: Seq<char>)
    requires
        a.len() > 0,
        b.len() == 0 || b[0] != '/',
    ensures
        resolved(cwd, a + seq!['/'] + b) == resolved(resolved(cwd, a), b),
        a[0] != '/' && cwd.len() > 0 && cwd[0] == '/' ==> resolved(cwd, a) == normalized(
            cwd + seq!['/'] + a,
        ),
{
    let whole = a + seq!['/'] + b;
    let start = if a[0] == '/' {
        a
    } else {
        joined_path(cwd, a)
    };
    let here = resolved(cwd, a);
    assert(whole[0] == a[0]);
    assert(resolved(cwd, whole) == normalized(start + seq!['/'] + b)) by {
        if a[0] == '/' {
            assert(start + seq!['/'] + b == whole);
        } else {
            assert(joined_path(cwd, whole) =~= start + seq!['/'] + b);
        }
    }
    law_normalizing_twice_changes_nothing(start);
    lemma_parts_behind(start, b);
    lemma_parts_behind(here, b);
    if here == seq!['/'] {
        let nothing: Seq<char> = seq![];
        assert(seq!['/'] + b =~= nothing + seq!['/'] + b);
        lemma_parts_behind(nothing, b);
        lemma_one_component(nothing);
        reveal_with_fuel(walk, 2);
        law_components_lead_on(nothing, nothing);
    }
    if a[0] != '/' && cwd.len() > 0 && cwd[0] == '/' {
        let long = cwd + seq!['/'] + a;
        assert(long[0] == '/');
        lemma_joined(cwd, a);
    }
}

/// Joining at the root leads where a slash between leads.
proof fn lemma_joined(cwd: Seq<char>, a: Seq<char>)
    ensures
        normal_parts(joined_path(cwd, a)) == normal_parts(cwd + seq!['/'] + a),
{
    lemma_parts_behind(cwd, a);
    if cwd == seq!['/'] {
        let nothing: Seq<char> = seq![];
        assert(seq!['/'] + a =~= nothing + seq!['/'] + a);
        lemma_parts_behind(nothing, a);
        law_components_lead_on(nothing, nothing);
    }
}

/// The name of an entry is the last component of its path, with any slashes behind it, and joining
/// it to its directory leads to it.
pub proof fn law_base_names_are_last_components(dir: Seq<char>, name: Seq<char>)
    requires
        name.len() > 0,
        !name.contains('/'),
    ensures
        base_name(name) == name,
        base_name(dir + seq!['/'] + name) == name,
        base_name(joined_path(dir, name)) == name,
        base_name(dir + seq!['/']) == base_name(dir),
{
    let nothing: Seq<char> = seq![];
    assert(nothing + name =~= name);
    lemma_base_name(nothing, name);
    lemma_base_name(dir + seq!['/'], name);
    lemma_base_name(seq!['/'], name);
    let longer = dir + seq!['/'];
    lemma_trimmed_same(dir, longer, dir.len() as int);
    let end = trimmed_end(dir, dir.len() as int);
    lemma_trimmed_end(dir, dir.len() as int);
    if end > 0 {
        lemma_start_same(dir, longer, end);
        lemma_component_start(dir, end);
        assert(longer.subrange(component_start(dir, end), end) =~= dir.subrange(
            component_start(dir, end),
            end,
        ));
    }
}

proof fn lemma_trimmed_same(a: Seq<char>, z: Seq<char>, end: int)
    requires
        0 <= end <= a.len() <= z.len(),
        forall|i: int| 0 <= i < a.len() ==> #[trigger] a[i] == z[i],
    ensures
        trimmed_end(z, end) == trimmed_end(a, end),
    decreases end,
{
    if end > 0 {
        assert(a[end - 1] == z[end - 1]);
        lemma_trimmed_same(a, z, end - 1);
    }
}

proof fn lemma_start_same(a: Seq<char>, z: Seq<char>, end: int)
    requires
        0 <= end <= a.len() <= z.len(),
        forall|i: int| 0 <= i < a.len() ==> #[trigger] a[i] == z[i],
    ensures
        component_start(z, end) == component_start(a, end),
    decreases end,
{
    if end > 0 {
        assert(a[end - 1] == z[end - 1]);
        lemma_start_same(a, z, end - 1);
    }
}

proof fn lemma_start_at(s: Seq<char>, start: int, end: int)
    requires
        0 <= start <= end <= s.len(),
        start > 0 ==> s[start - 1] == '/',
        forall|i: int| start <= i < end ==> #[trigger] s[i] != '/',
    ensures
        component_start(s, end) == start,
    decreases end - start,
{
    if end > start {
        assert(s[end - 1] != '/');
        lemma_start_at(s, start, end - 1);
    }
}

proof fn lemma_base_name(front: Seq<char>, name: Seq<char>)
    requires
        name.len() > 0,
        !name.contains('/'),
        front.len() > 0 ==> front.last() == '/',
    ensures
        base_name(front + name) == name,
{
    let s = front + name;
    let start = front.len() as int;
    let n = s.len() as int;
    assert forall|i: int| start <= i < n implies #[trigger] s[i] != '/' by {
        assert(s[i] == name[i - start]);
        assert(name.contains(name[i - start]));
    }
    assert(s[n - 1] != '/');
    lemma_start_at(s, start, n);
    assert(s.subrange(start, n) =~= name);
}

} // verus!
