use vstd::prelude::*;
use vstd::utf8::encode_utf8;

verus! {

/// The program's name and version.
pub fn version() -> (v: &'static str)
    ensures
        v@ == "uemacs 0.1.0"@,
{
    "uemacs 0.1.0"
}

} // verus!

verus! {

/// Appends the characters of `t` to `s`.
pub fn push_str(s: &mut String, t: &str)
    ensures
        final(s)@ == old(s)@ + t@,
{
    let n = t.unicode_len();
    let mut i: usize = 0;
    while i < n
        invariant
            i <= n,
            n == t@.len(),
            s@ == old(s)@ + t@.take(i as int),
        decreases n - i,
    {
        crate::text::push_char(s, t.get_char(i));
        i += 1;
        assert(s@ =~= old(s)@ + t@.take(i as int));
    }
    assert(t@.take(n as int) =~= t@);
}

/// A file name with a leading `~` standing for the home directory `home`: `~` alone is
/// `home`, `~/rest` is `home/rest`; other names, and any name when `home` is empty, stay.
pub open spec fn tilde_expanded(prefix: Seq<char>, home: Seq<char>) -> Seq<char> {
    if prefix.len() == 0 || prefix[0] != '~' || home.len() == 0 {
        prefix
    } else if prefix.len() == 1 {
        home
    } else if prefix[1] == '/' {
        home + seq!['/'] + prefix.skip(2)
    } else {
        prefix
    }
}

/// Expands a leading `~` of `prefix` to the home directory `home`; see `tilde_expanded`.
pub fn expand_tilde(prefix: &str, home: &str) -> (r: String)
    ensures
        r@ == tilde_expanded(prefix@, home@),
{
    let n = prefix.unicode_len();
    if n == 0 || prefix.get_char(0) != '~' || home.unicode_len() == 0 {
        return prefix.to_string();
    }
    if n == 1 {
        return home.to_string();
    }
    if prefix.get_char(1) == '/' {
        let mut r = home.to_string();
        crate::text::push_char(&mut r, '/');
        let rest = prefix.substring_char(2, n);
        push_str(&mut r, rest);
        assert(rest@ =~= prefix@.skip(2));
        return r;
    }
    prefix.to_string()
}

/// Where the completions of a file name are looked for: the directory to list, the start
/// of the names wanted in it, and what goes before each name found.
pub struct CompletionParts {
    pub dir_to_read: String,
    pub base: String,
    pub prefix_str: String,
}

/// What `std::path::Path::parent` gives for a path: the path without its last component,
/// if it has one.
pub uninterp spec fn path_parent(s: Seq<char>) -> Option<Seq<char>>;

/// What `std::path::Path::file_name` gives for a path: its last component, unless that is
/// `..` or the path is a root or empty.
pub uninterp spec fn path_file_name(s: Seq<char>) -> Option<Seq<char>>;

/// `Path::parent` of `s`, as text (a lossy conversion, which is exact for text that
/// came from a `&str`).
#[verifier::external_body]
fn parent_of(s: &str) -> (r: Option<String>)
    ensures
        match r {
            Some(p) => path_parent(s@) == Some(p@),
            None => path_parent(s@) is None,
        },
{
    std::path::Path::new(s).parent().map(|p| p.to_string_lossy().into_owned())
}

/// `Path::file_name` of `s`, as text (a lossy conversion, which is exact for text that
/// came from a `&str`).
#[verifier::external_body]
fn file_name_of(s: &str) -> (r: Option<String>)
    ensures
        match r {
            Some(p) => path_file_name(s@) == Some(p@),
            None => path_file_name(s@) is None,
        },
{
    std::path::Path::new(s).file_name().map(|p| p.to_string_lossy().into_owned())
}

/// All characters of `s` are `/`.
pub open spec fn all_slashes(s: Seq<char>) -> bool {
    forall|i: int| 0 <= i < s.len() ==> s[i] == '/'
}

/// `s` without the `/` at its end.
pub open spec fn trim_slashes(s: Seq<char>) -> Seq<char>
    decreases s.len(),
{
    if s.len() > 0 && s.last() == '/' {
        trim_slashes(s.drop_last())
    } else {
        s
    }
}

/// The parts of the completion of `expanded`, given what `Path::parent` and
/// `Path::file_name` make of it.  A name that is empty or ends in `/` lists that
/// directory (`.` for the empty name, `/` for slashes alone) with all its names, each
/// after the name typed.  Otherwise the parent directory is listed (`.` when there is
/// none) for the names that start with the last component, each after the parent and a
/// `/` (nothing when there is no parent).
pub open spec fn parts_of(expanded: Seq<char>, parent: Option<Seq<char>>, file_name: Option<Seq<char>>) -> (
    Seq<char>,
    Seq<char>,
    Seq<char>,
) {
    if expanded.len() == 0 {
        (seq!['.'], Seq::empty(), Seq::empty())
    } else if expanded.last() == '/' {
        (if all_slashes(expanded) {
            seq!['/']
        } else {
            trim_slashes(expanded)
        }, Seq::empty(), expanded)
    } else {
        let p = match parent {
            Some(p) => p,
            None => Seq::empty(),
        };
        (if p.len() == 0 {
            seq!['.']
        } else {
            p
        }, match file_name {
            Some(f) => f,
            None => Seq::empty(),
        }, if p.len() == 0 {
            Seq::empty()
        } else {
            p + seq!['/']
        })
    }
}

/// The view of completion parts.
pub open spec fn parts_view(c: CompletionParts) -> (Seq<char>, Seq<char>, Seq<char>) {
    (c.dir_to_read@, c.base@, c.prefix_str@)
}

/// The completion parts of `expanded`, given what `Path::parent` and `Path::file_name`
/// make of it; see `parts_of`.
pub fn parts_from(expanded: &str, parent: Option<String>, file_name: Option<String>) -> (r: CompletionParts)
    ensures
        parts_view(r) == parts_of(
            expanded@,
            match parent {
                Some(p) => Some(p@),
                None => None,
            },
            match file_name {
                Some(f) => Some(f@),
                None => None,
            },
        ),
{
    let n = expanded.unicode_len();
    proof {
        reveal_strlit(".");
        reveal_strlit("/");
    }
    if n == 0 {
        return CompletionParts {
            dir_to_read: String::from_str("."),
            base: String::new(),
            prefix_str: String::new(),
        };
    }
    if expanded.get_char(n - 1) == '/' {
        let mut k: usize = n;
        assert(expanded@.take(n as int) =~= expanded@);
        while k > 0 && expanded.get_char(k - 1) == '/'
            invariant
                k <= n,
                n == expanded@.len(),
                forall|i: int| k <= i < n ==> expanded@[i] == '/',
                trim_slashes(expanded@) == trim_slashes(expanded@.take(k as int)),
            decreases k,
        {
            assert(expanded@.take(k as int).drop_last() =~= expanded@.take(k - 1));
            k -= 1;
        }
        proof {
            assert(trim_slashes(expanded@.take(k as int)) == expanded@.take(k as int));
            assert(expanded@.take(n as int) =~= expanded@);
        }
        let dir = if k == 0 {
            String::from_str("/")
        } else {
            expanded.substring_char(0, k).to_string()
        };
        proof {
            if k == 0 {
                assert(all_slashes(expanded@));
            } else {
                assert(expanded@[k - 1] != '/');
            }
        }
        return CompletionParts { dir_to_read: dir, base: String::new(), prefix_str: expanded.to_string() };
    }
    let p = match parent {
        Some(p) => p,
        None => String::new(),
    };
    let plen = p.as_str().unicode_len();
    let dir = if plen == 0 {
        String::from_str(".")
    } else {
        p.clone()
    };
    let base = match file_name {
        Some(f) => f,
        None => String::new(),
    };
    let prefix_str = if plen == 0 {
        String::new()
    } else {
        let mut s = p.clone();
        crate::text::push_char(&mut s, '/');
        s
    };
    CompletionParts { dir_to_read: dir, base, prefix_str }
}

/// The parts of the completion of `expanded`; see `parts_of`.
pub fn resolve_completion_parts(expanded: &str) -> (r: CompletionParts)
    ensures
        parts_view(r) == parts_of(expanded@, path_parent(expanded@), path_file_name(expanded@)),
{
    let parent = parent_of(expanded);
    let file_name = file_name_of(expanded);
    parts_from(expanded, parent, file_name)
}

/// The views of a list of strings.
pub open spec fn views(v: Seq<String>) -> Seq<Seq<char>> {
    v.map_values(|s: String| s@)
}

/// `a` comes before `b`, or is equal to it, comparing bytes lexicographically.
pub open spec fn lex_le(a: Seq<u8>, b: Seq<u8>) -> bool
    decreases a.len(),
{
    if a.len() == 0 {
        true
    } else if b.len() == 0 {
        false
    } else if a[0] != b[0] {
        a[0] < b[0]
    } else {
        lex_le(a.drop_first(), b.drop_first())
    }
}

/// `slice::sort` on strings: sorts `v` in ascending order, strings ordered by their bytes
/// lexicographically; the strings are the same, only their order changes.
#[verifier::external_body]
pub(crate) fn sort_strings(v: &mut Vec<String>)
    ensures
        views(final(v)@).to_multiset() == views(old(v)@).to_multiset(),
        forall|i: int, j: int|
            0 <= i < j < final(v)@.len() ==> lex_le(encode_utf8(#[trigger] final(v)@[i]@), encode_utf8(#[trigger] final(v)@[j]@)),
{
    v.sort();
}

/// The names of `entries` (a name and whether it is a directory) that start with `base`,
/// each after `prefix` and, for a directory, followed by `/`, in order.
pub open spec fn names_found(entries: Seq<(Seq<char>, bool)>, base: Seq<char>, prefix: Seq<char>) -> Seq<Seq<char>>
    decreases entries.len(),
{
    if entries.len() == 0 {
        Seq::empty()
    } else {
        let (name, dir) = entries.last();
        names_found(entries.drop_last(), base, prefix) + (if crate::edit::helpers::is_prefix(base, name) {
            seq![prefix + name + (if dir {
                seq!['/']
            } else {
                Seq::empty()
            })]
        } else {
            Seq::empty()
        })
    }
}

/// The view of a directory listing.
pub open spec fn listing_view(v: Seq<(String, bool)>) -> Seq<(Seq<char>, bool)> {
    v.map_values(|e: (String, bool)| (e.0@, e.1))
}

/// The completions found in a directory listing `entries` (each a name and whether it
/// is a directory): see `names_found`; sorted.
pub fn completions_in(entries: &Vec<(String, bool)>, base: &str, prefix: &str) -> (r: Vec<String>)
    ensures
        views(r@).to_multiset() == names_found(listing_view(entries@), base@, prefix@).to_multiset(),
        forall|i: int, j: int|
            0 <= i < j < r@.len() ==> lex_le(encode_utf8(#[trigger] r@[i]@), encode_utf8(#[trigger] r@[j]@)),
{
    let mut out: Vec<String> = Vec::new();
    let mut i: usize = 0;
    while i < entries.len()
        invariant
            i <= entries@.len(),
            views(out@) == names_found(listing_view(entries@.take(i as int)), base@, prefix@),
        decreases entries@.len() - i,
    {
        let ghost o0 = views(out@);
        let name = entries[i].0.as_str();
        if crate::edit::minibuffer::starts_with(name, base) {
            let mut s = prefix.to_string();
            push_str(&mut s, name);
            if entries[i].1 {
                crate::text::push_char(&mut s, '/');
            }
            let ghost sv = s@;
            out.push(s);
            assert(views(out@) =~= o0 + seq![sv]);
            proof {
                if entries@[i as int].1 {
                    assert(sv =~= prefix@ + name@ + seq!['/']);
                } else {
                    assert(sv =~= prefix@ + name@ + Seq::<char>::empty());
                }
            }
        } else {
            assert(views(out@) =~= o0 + Seq::<Seq<char>>::empty());
        }
        assert(listing_view(entries@.take(i + 1)).drop_last() =~= listing_view(entries@.take(i as int)));
        i += 1;
    }
    assert(entries@.take(entries@.len() as int) =~= entries@);
    sort_strings(&mut out);
    out
}

} // verus!
