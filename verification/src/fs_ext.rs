//! Names for atomic whole-file replacement: the new contents go to a sibling temp
//! file that is then renamed over the destination, so a reader never observes a
//! half-written file.
use vstd::prelude::*;

verus! {

/// The name that a destination goes by; one without a file name goes by "out".
pub open spec fn base_name(file_name: Option<Seq<char>>) -> Seq<char> {
    match file_name {
        Some(name) => name,
        None => "out"@,
    }
}

/// The name of the temp file of a destination.
pub open spec fn temp_of(name: Seq<char>) -> Seq<char> {
    "."@ + name + ".arma.tmp"@
}

/// The characters of a name that may be absent.
pub open spec fn file_name_view(file_name: Option<&str>) -> Option<Seq<char>> {
    match file_name {
        Some(name) => Some(name@),
        None => None,
    }
}

/// The temp file is never the destination itself.
pub proof fn temp_is_not_destination(name: Seq<char>)
    ensures
        temp_of(name) != name,
{
    reveal_strlit(".");
    reveal_strlit(".arma.tmp");
    assert(temp_of(name).len() == name.len() + 10);
}

/// Two destinations never share a temp file.
pub proof fn temp_names_are_distinct(a: Seq<char>, b: Seq<char>)
    requires
        temp_of(a) == temp_of(b),
    ensures
        a == b,
{
    reveal_strlit(".");
    reveal_strlit(".arma.tmp");
    assert(temp_of(a).len() == a.len() + 10);
    assert(temp_of(b).len() == b.len() + 10);
    assert(temp_of(a).subrange(1, a.len() + 1int) =~= a);
    assert(temp_of(b).subrange(1, b.len() + 1int) =~= b);
}

/// The temp file of a name without a separator is in the same directory.
pub proof fn temp_stays_in_directory(name: Seq<char>)
    requires
        !name.contains('/'),
    ensures
        !temp_of(name).contains('/'),
{
    reveal_strlit(".");
    reveal_strlit(".arma.tmp");
    let temp = temp_of(name);
    assert forall|i: int| 0 <= i < temp.len() implies temp[i] != '/' by {
        if 1 <= i < 1 + name.len() {
            assert(temp[i] == name[i - 1]);
            assert(name.contains(name[i - 1]));
        }
    }
}

/// The name of the temp file of a destination.
pub fn temp_name(file_name: Option<&str>) -> (r: String)
    ensures
        r@ == temp_of(base_name(file_name_view(file_name))),
{
    let name: &str = match file_name {
        Some(name) => name,
        None => "out",
    };
    let mut r: String = ".".to_owned();
    r.append(name);
    r.append(".arma.tmp");
    r
}

/// The temp file of a destination is hidden, bears its name and ends with `.arma.tmp`.
pub proof fn temp_name_wraps_the_name(name: Seq<char>)
    ensures
        temp_of(name).len() == 1 + name.len() + 9,
        temp_of(name)[0] == '.',
        temp_of(name).subrange(1, 1 + name.len() as int) == name,
        temp_of(name).skip(1 + name.len() as int) == ".arma.tmp"@,
{
    reveal_strlit(".");
    reveal_strlit(".arma.tmp");
    assert(temp_of(name).subrange(1, 1 + name.len() as int) =~= name);
    assert(temp_of(name).skip(1 + name.len() as int) =~= ".arma.tmp"@);
}

/// A destination goes by its file name, and by `out` without one.
pub proof fn nameless_destinations_go_by_out(name: Seq<char>, text: &str)
    ensures
        base_name(Some(name)) == name,
        base_name(None) == "out"@,
        file_name_view(Some(text)) == Some(text@),
        file_name_view(None) is None,
{
}

} // verus!
