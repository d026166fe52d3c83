//! From relative paths to names.
//!
//! A path is the list of its components, outermost first. A definition file
//! is one whose last component ends in `.json`; what stands before that
//! ending is its stem.

use vstd::prelude::*;

verus! {

/// The name `path` under the game's namespace.
pub open spec fn namespaced(path: Seq<char>) -> Seq<char> {
    "minecraft:"@ + path
}

/// The components of `parts` joined by `/`.
pub open spec fn joined(parts: Seq<Seq<char>>) -> Seq<char>
    decreases parts.len(),
{
    if parts.len() == 0 {
        Seq::empty()
    } else if parts.len() == 1 {
        parts[0]
    } else {
        joined(parts.drop_last()) + seq!['/'] + parts.last()
    }
}

/// What stands before the `.json` ending of a file name, if the name has that
/// ending and something before it.
pub open spec fn json_stem(file_name: Seq<char>) -> Option<Seq<char>> {
    if file_name.len() > 5 && file_name.skip(file_name.len() - 5) == seq!['.', 'j', 's', 'o', 'n'] {
        Some(file_name.take(file_name.len() - 5))
    } else {
        None
    }
}

/// Whether a tag reference points at another tag rather than at an entry.
pub open spec fn is_indirect(reference: Seq<char>) -> bool {
    reference.len() > 0 && reference[0] == '#'
}

/// The character that stands for `c` in a file name.
pub open spec fn safe_char(c: char) -> char {
    if c == ':' || c == '/' {
        '_'
    } else {
        c
    }
}

/// The file a registry's packet is written to: the registry's name with the
/// namespace and path separators replaced by `_`, and the ending `.bin`.
pub open spec fn packet_file_name(registry: Seq<char>) -> Seq<char> {
    registry.map_values(|c: char| safe_char(c)) + ".bin"@
}

/// Calls `String::push`, which appends one character to the string.
#[verifier::external_body]
fn push_char(s: &mut String, c: char)
    ensures
        final(s)@ == old(s)@.push(c),
{
    s.push(c)
}

/// Puts `path` under the game's namespace.
pub fn namespace(path: &str) -> (r: String)
    ensures
        r@ == namespaced(path@),
{
    let mut out = String::from_str("minecraft:");
    out.append(path);
    out
}

/// Joins the components `parts[from..to]` by `/`.
pub fn join(parts: &Vec<String>, from: usize, to: usize) -> (r: String)
    requires
        from <= to <= parts.len(),
    ensures
        r@ == joined(parts.deep_view().subrange(from as int, to as int)),
{
    let mut out = String::new();
    let mut i: usize = from;
    let ghost all = parts.deep_view();
    assert(all.subrange(from as int, from as int) =~= Seq::empty());
    while i < to
        invariant
            from <= i <= to <= parts.len(),
            all == parts.deep_view(),
            out@ == joined(all.subrange(from as int, i as int)),
        decreases to - i,
    {
        let ghost done = all.subrange(from as int, i as int);
        let ghost next = all.subrange(from as int, i + 1);
        assert(next.drop_last() =~= done);
        assert(next.last() == parts[i as int]@);
        if i > from {
            proof {
                reveal_strlit("/");
                assert("/"@ =~= seq!['/']);
            }
            out.append("/");
        } else {
            assert(out@ + parts[i as int]@ =~= parts[i as int]@);
        }
        out.append(parts[i].as_str());
        i += 1;
    }
    out
}

/// The stem of a definition file's name; nothing for any other name.
pub fn stem(file_name: &str) -> (r: Option<String>)
    ensures
        match r {
            Some(s) => json_stem(file_name@) == Some(s@),
            None => json_stem(file_name@) is None,
        },
{
    let n = file_name.unicode_len();
    if n <= 5 {
        return None;
    }
    let ghost tail = file_name@.skip(n - 5);
    if file_name.get_char(n - 5) == '.' && file_name.get_char(n - 4) == 'j' && file_name.get_char(
        n - 3,
    ) == 's' && file_name.get_char(n - 2) == 'o' && file_name.get_char(n - 1) == 'n' {
        assert(tail =~= seq!['.', 'j', 's', 'o', 'n']);
        let head = file_name.substring_char(0, n - 5);
        assert(head@ =~= file_name@.take(n - 5));
        Some(String::from_str(head))
    } else {
        assert(tail[0] == file_name@[n - 5]);
        assert(tail[1] == file_name@[n - 4]);
        assert(tail[2] == file_name@[n - 3]);
        assert(tail[3] == file_name@[n - 2]);
        assert(tail[4] == file_name@[n - 1]);
        None
    }
}

/// Whether `reference` starts with the marker of an indirect reference.
pub fn indirect(reference: &str) -> (r: bool)
    ensures
        r == is_indirect(reference@),
{
    !reference.is_empty() && reference.get_char(0) == '#'
}

/// Derives the name of the file that holds a registry's packet.
pub fn file_name(registry: &str) -> (r: String)
    ensures
        r@ == packet_file_name(registry@),
{
    let mut out = String::new();
    let ghost safe = registry@.map_values(|c: char| safe_char(c));
    for c in it: registry.chars()
        invariant
            it.seq() == registry@,
            safe == registry@.map_values(|c: char| safe_char(c)),
            out@ == safe.take(it.index() as int),
    {
        let replaced = if c == ':' || c == '/' {
            '_'
        } else {
            c
        };
        push_char(&mut out, replaced);
        assert(safe.take(it.index() + 1) =~= safe.take(it.index() as int).push(replaced));
    }
    assert(safe.take(registry@.len() as int) =~= safe);
    out.append(".bin");
    out
}

} // verus!
