//! Where files live, as texts of Unix paths.

use crate::error::{Error, Result};
use crate::ids::{hyphenated_text, ItemId};
use crate::text::{chars_of, ends_with, join2, join3, same_text, starts_with, texts};
use vstd::prelude::*;

verus! {

/// `base/part`, with no second slash where `base` is empty or ends in one. An
/// absolute `part` stands for itself.
pub open spec fn joined_path(base: Seq<char>, part: Seq<char>) -> Seq<char> {
    if part.len() > 0 && part[0] == '/' {
        part
    } else if base.len() == 0 || base.last() == '/' {
        base + part
    } else {
        base + seq!['/'] + part
    }
}

/// Put a path behind a directory.
pub fn join_path(base: &str, part: &str) -> (r: String)
    ensures
        r@ == joined_path(base@, part@),
{
    proof {
        reveal_strlit("/");
        reveal_strlit("");
        assert("/"@ =~= seq!['/']);
        if part@.len() > 0 {
            assert(part@.subrange(0, 1) =~= seq![part@[0]]);
            assert(seq![part@[0]][0] == part@[0]);
        }
        if base@.len() > 0 {
            assert(base@.subrange(base@.len() - 1, base@.len() as int) =~= seq![base@.last()]);
            assert(seq![base@.last()][0] == base@.last());
        }
        assert("/"@[0] == '/');
    }
    if starts_with(part, "/") {
        part.to_owned()
    } else if base.is_empty() || ends_with(base, "/") {
        join2(base, part)
    } else {
        join3(base, "/", part)
    }
}

/// The texts between the slashes of a path, empty ones too.
pub open spec fn parts(path: Seq<char>) -> Seq<Seq<char>>
    decreases path.len(),
{
    if path.len() == 0 {
        seq![Seq::empty()]
    } else {
        let front = parts(path.drop_last());
        if path.last() == '/' {
            front.push(Seq::empty())
        } else {
            front.drop_last().push(front.last().push(path.last()))
        }
    }
}

/// The parts that name something: those that are neither empty nor a dot.
pub open spec fn named(list: Seq<Seq<char>>) -> Seq<Seq<char>>
    decreases list.len(),
{
    if list.len() == 0 {
        Seq::empty()
    } else if list.last().len() == 0 || list.last() == seq!['.'] {
        named(list.drop_last())
    } else {
        named(list.drop_last()).push(list.last())
    }
}

/// What a path is made of: the root or the dot that it begins with, if it does,
/// and its names. Further dots, repeated slashes and slashes at the end count
/// for nothing.
pub open spec fn components(path: Seq<char>) -> Seq<Seq<char>> {
    let head = if path.len() > 0 && path[0] == '/' {
        seq![seq!['/']]
    } else if parts(path)[0] == seq!['.'] {
        seq![seq!['.']]
    } else {
        Seq::empty()
    };
    head + named(parts(path))
}

proof fn lemma_parts(path: Seq<char>)
    ensures
        parts(path).len() > 0,
    decreases path.len(),
{
    if path.len() > 0 {
        lemma_parts(path.drop_last());
    }
}

fn parts_of(path: &str) -> (r: Vec<String>)
    ensures
        texts(r@) == parts(path@),
        r@.len() > 0,
{
    let chars = chars_of(path);
    let mut out: Vec<String> = Vec::new();
    let mut current = String::new();
    let mut i: usize = 0;
    assert(chars@.take(0) =~= Seq::empty());
    assert(texts(out@).push(current@) =~= seq![Seq::empty()]);
    while i < chars.len()
        invariant
            i <= chars@.len(),
            texts(out@).push(current@) == parts(chars@.take(i as int)),
        decreases chars@.len() - i,
    {
        let ghost before = texts(out@).push(current@);
        proof {
            assert(chars@.take(i + 1).drop_last() =~= chars@.take(i as int));
            assert(chars@.take(i + 1).last() == chars@[i as int]);
            assert(before.drop_last() =~= texts(out@));
        }
        if chars[i] == '/' {
            let ghost done = texts(out@);
            let ghost last = current@;
            out.push(current);
            current = String::new();
            assert(texts(out@) =~= done.push(last));
            assert(current@ =~= Seq::empty());
        } else {
            current.push(chars[i]);
        }
        i += 1;
    }
    assert(chars@.take(i as int) =~= chars@);
    let ghost done = texts(out@);
    let ghost last = current@;
    out.push(current);
    assert(texts(out@) =~= done.push(last));
    out
}

fn components_of(path: &str) -> (r: Vec<String>)
    ensures
        texts(r@) == components(path@),
{
    let list = parts_of(path);
    let ghost all = texts(list@);
    proof {
        reveal_strlit("/");
        reveal_strlit(".");
        assert("/"@ =~= seq!['/']);
        assert("."@ =~= seq!['.']);
        lemma_parts(path@);
        assert(all[0] == list@[0]@);
        if path@.len() > 0 {
            assert(path@.subrange(0, 1) =~= seq![path@[0]]);
            assert(seq![path@[0]][0] == path@[0]);
        }
    }
    let mut out: Vec<String> = Vec::new();
    if starts_with(path, "/") {
        out.push("/".to_owned());
    } else if same_text(list[0].as_str(), ".") {
        out.push(".".to_owned());
    }
    let ghost head = texts(out@);
    let mut i: usize = 0;
    assert(all.take(0) =~= Seq::empty());
    assert(head + named(all.take(0)) =~= head);
    while i < list.len()
        invariant
            i <= list@.len(),
            all == texts(list@),
            "."@ == seq!['.'],
            texts(out@) == head + named(all.take(i as int)),
        decreases list@.len() - i,
    {
        let ghost before = texts(out@);
        proof {
            assert(all.take(i + 1).drop_last() =~= all.take(i as int));
            assert(all.take(i + 1).last() == list@[i as int]@);
        }
        if !list[i].as_str().is_empty() && !same_text(list[i].as_str(), ".") {
            out.push(list[i].clone());
            assert(texts(out@) =~= before.push(list@[i as int]@));
            assert(texts(out@) =~= head + named(all.take(i + 1)));
        }
        i += 1;
    }
    assert(all.take(i as int) =~= all);
    assert(head =~= if path@.len() > 0 && path@[0] == '/' {
        seq![seq!['/']]
    } else if parts(path@)[0] == seq!['.'] {
        seq![seq!['.']]
    } else {
        Seq::empty()
    });
    out
}

/// Whether two texts are the same path.
pub fn same_path(a: &str, b: &str) -> (r: bool)
    ensures
        r == (components(a@) == components(b@)),
{
    let x = components_of(a);
    let y = components_of(b);
    if x.len() != y.len() {
        assert(texts(x@).len() != texts(y@).len());
        return false;
    }
    let mut i: usize = 0;
    while i < x.len()
        invariant
            i <= x@.len(),
            x@.len() == y@.len(),
            texts(x@) == components(a@),
            texts(y@) == components(b@),
            forall|j: int| 0 <= j < i ==> (#[trigger] x@[j])@ == y@[j]@,
        decreases x@.len() - i,
    {
        if !same_text(x[i].as_str(), y[i].as_str()) {
            assert(texts(x@)[i as int] != texts(y@)[i as int]);
            return false;
        }
        i += 1;
    }
    assert(texts(x@) =~= texts(y@));
    true
}

/// The path of an item's thumbnail below the cache directory.
pub open spec fn thumb_path_of(cache_dir: Seq<char>, id: ItemId) -> Seq<char> {
    joined_path(
        joined_path(cache_dir, "thumbs"@),
        hyphenated_text(id.bits) + ".png"@,
    )
}

/// Return the path for an item's thumbnail: `<cache_dir>/thumbs/<id>.png`.
pub fn thumb_path(cache_dir: &str, id: ItemId) -> (r: String)
    ensures
        r@ == thumb_path_of(cache_dir@, id),
{
    let dir = join_path(cache_dir, "thumbs");
    let id_text = id.to_text();
    let name = join2(id_text.as_str(), ".png");
    join_path(dir.as_str(), name.as_str())
}

/// The directory that is in force: a given one, else the one that the
/// environment names, else the default.
pub open spec fn chosen_dir(
    given: Option<Seq<char>>,
    from_env: Option<Seq<char>>,
    default: Option<Seq<char>>,
) -> Option<Seq<char>> {
    if given is Some {
        given
    } else if from_env is Some {
        from_env
    } else {
        default
    }
}

/// The characters of an optional text.
pub open spec fn text_of(s: Option<String>) -> Option<Seq<char>> {
    match s {
        Some(t) => Some(t@),
        None => None,
    }
}

/// The directory to use, or the error of one that cannot be determined.
pub fn choose_dir(
    given: Option<String>,
    from_env: Option<String>,
    default: Option<String>,
) -> (r: Result<String>)
    ensures
        is_dir_result(chosen_dir(text_of(given), text_of(from_env), text_of(default)), r),
{
    match given {
        Some(dir) => Ok(dir),
        None => match from_env {
            Some(dir) => Ok(dir),
            None => match default {
                Some(dir) => Ok(dir),
                None => Err(Error::Other("could not determine home directory".to_owned())),
            },
        },
    }
}

/// The directory, or the error of one that cannot be determined.
pub open spec fn is_dir_result(dir: Option<Seq<char>>, r: Result<String>) -> bool {
    match dir {
        Some(d) => r matches Ok(t) && t@ == d,
        None => r matches Err(Error::Other(e)) && e@ == "could not determine home directory"@,
    }
}

/// The directory is one of the project's own: `richclip` below another.
pub open spec fn is_project_dir(dir: Seq<char>) -> bool {
    "/richclip"@.is_suffix_of(dir)
}

/// `ProjectDirs::from` and `data_dir`: the data directory of the project for
/// this user; none where there is no home directory or where its name is not
/// Unicode. The project's name is put behind a directory that the environment
/// decides; which one that is, is not stated.
#[verifier::external_body]
fn project_data_dir() -> (r: Option<String>)
    ensures
        r matches Some(dir) ==> is_project_dir(dir@),
{
    directories::ProjectDirs::from("", "", "richclip").and_then(
        |d| d.data_dir().to_str().map(|s| s.to_owned()),
    )
}

/// `ProjectDirs::from` and `cache_dir`: the cache directory of the project for
/// this user; none where there is no home directory or where its name is not
/// Unicode. The project's name is put behind a directory that the environment
/// decides; which one that is, is not stated.
#[verifier::external_body]
fn project_cache_dir() -> (r: Option<String>)
    ensures
        r matches Some(dir) ==> is_project_dir(dir@),
{
    directories::ProjectDirs::from("", "", "richclip").and_then(
        |d| d.cache_dir().to_str().map(|s| s.to_owned()),
    )
}

/// `ProjectDirs::from`: whether this user has a home directory, as the
/// environment has it. Nothing is stated of it.
#[verifier::external_body]
fn has_project_dirs() -> (r: bool) {
    directories::ProjectDirs::from("", "", "richclip").is_some()
}

/// The outcome of looking for a directory of the project: one of its own, or
/// the error of one that cannot be determined.
pub open spec fn is_project_dir_result(r: Result<String>) -> bool {
    match r {
        Ok(dir) => is_project_dir(dir@),
        Err(_) => is_dir_result(None, r),
    }
}

/// Return the default data directory for richclip: `$XDG_DATA_HOME/richclip`,
/// or `~/.local/share/richclip`.
pub fn default_data_dir() -> (r: Result<String>)
    ensures
        is_project_dir_result(r),
{
    let dir = project_data_dir();
    choose_dir(None, None, dir)
}

/// Return the default cache directory for richclip: `$XDG_CACHE_HOME/richclip`,
/// or `~/.cache/richclip`.
pub fn default_cache_dir() -> (r: Result<String>)
    ensures
        is_project_dir_result(r),
{
    let dir = project_cache_dir();
    choose_dir(None, None, dir)
}

/// The socket path below the runtime directory, which falls back to the cache
/// directory.
pub open spec fn socket_path_of(
    runtime_dir: Option<Seq<char>>,
    cache_dir: Seq<char>,
) -> Seq<char> {
    joined_path(
        match runtime_dir {
            Some(dir) => dir,
            None => cache_dir,
        },
        "richclip.sock"@,
    )
}

/// The path of the daemon socket, given where the directories are.
pub fn socket_path(runtime_dir: Option<String>, cache_dir: String) -> (r: String)
    ensures
        r@ == socket_path_of(text_of(runtime_dir), cache_dir@),
{
    match runtime_dir {
        Some(dir) => join_path(dir.as_str(), "richclip.sock"),
        None => join_path(cache_dir.as_str(), "richclip.sock"),
    }
}

/// Return the default path of the daemon socket: `richclip.sock` in
/// `runtime_dir` (`$XDG_RUNTIME_DIR`), or in the cache directory where there is
/// none.
pub fn default_socket_path(runtime_dir: Option<String>) -> (r: Result<String>)
    ensures
        match r {
            Ok(path) => exists|cache_dir: Seq<char>|
                is_project_dir(cache_dir) && path@ == #[trigger] socket_path_of(
                    text_of(runtime_dir),
                    cache_dir,
                ),
            Err(e) => is_dir_result(None, Err(e)),
        },
{
    if let Some(dir) = runtime_dir {
        // The cache directory is not needed, but there has to be a home.
        if !has_project_dirs() {
            return Err(Error::Other("could not determine home directory".to_owned()));
        }
        proof {
            let some = "/richclip"@;
            assert(some.subrange(0, some.len() as int) =~= some);
            assert(is_project_dir(some));
            assert(socket_path_of(Some(dir@), some) == socket_path_of(Some(dir@), Seq::empty()));
        }
        let path = socket_path(Some(dir), String::new());
        return Ok(path);
    }
    match default_cache_dir() {
        Ok(cache_dir) => Ok(socket_path(None, cache_dir)),
        Err(e) => Err(e),
    }
}

// ---------------------------------------------------------------------------
// What holds of paths
// ---------------------------------------------------------------------------

/// A relative path behind a directory stands behind a slash, its own or one that
/// is put there; an absolute one is left alone.
pub proof fn law_joined_path(dir: Seq<char>, name: Seq<char>)
    requires
        name.len() == 0 || name[0] != '/',
    ensures
        dir.len() > 0 && dir[dir.len() - 1] != '/' ==> joined_path(dir, name) == dir + seq!['/']
            + name,
        joined_path(dir + seq!['/'], name) == dir + seq!['/'] + name,
        joined_path(dir, seq!['/'] + name) == seq!['/'] + name,
        joined_path(Seq::empty(), name) == name,
{
    assert((dir + seq!['/']).last() == '/');
    assert((seq!['/'] + name)[0] == '/');
    assert(joined_path(Seq::empty(), name) =~= name);
}

/// The thumbnail of an item lies at `thumbs/<id>.png` below the cache directory,
/// and the socket at `richclip.sock` in the runtime directory, or in the cache
/// directory where there is none.
pub proof fn law_places(dir: Seq<char>, cache_dir: Seq<char>, id: ItemId)
    requires
        dir.len() > 0,
        dir[dir.len() - 1] != '/',
        cache_dir.len() > 0,
        cache_dir[cache_dir.len() - 1] != '/',
    ensures
        thumb_path_of(cache_dir, id) == cache_dir + "/thumbs/"@ + hyphenated_text(id.bits)
            + ".png"@,
        thumb_path_of(cache_dir + seq!['/'], id) == thumb_path_of(cache_dir, id),
        socket_path_of(Some(dir), cache_dir) == dir + "/richclip.sock"@,
        socket_path_of(None, cache_dir) == cache_dir + "/richclip.sock"@,
{
    reveal_strlit("thumbs");
    reveal_strlit("/thumbs/");
    reveal_strlit("richclip.sock");
    reveal_strlit("/richclip.sock");
    assert("/thumbs/"@ =~= seq!['/'] + "thumbs"@ + seq!['/']);
    assert("/richclip.sock"@ =~= seq!['/'] + "richclip.sock"@);
    law_joined_path(cache_dir, "thumbs"@);
    law_joined_path(cache_dir, "richclip.sock"@);
    law_joined_path(dir, "richclip.sock"@);
    let thumbs = cache_dir + seq!['/'] + "thumbs"@;
    let name = hyphenated_text(id.bits) + ".png"@;
    assert(thumbs.last() == 's');
    assert(name[0] == hyphenated_text(id.bits)[0]);
    assert(name[0] != '/');
    law_joined_path(thumbs, name);
    assert(thumb_path_of(cache_dir, id) =~= cache_dir + "/thumbs/"@ + hyphenated_text(id.bits)
        + ".png"@);
    assert(dir + seq!['/'] + "richclip.sock"@ =~= dir + "/richclip.sock"@);
    assert(cache_dir + seq!['/'] + "richclip.sock"@ =~= cache_dir + "/richclip.sock"@);
}

/// Thumbnails of different items lie at different paths.
pub proof fn law_thumbnails_lie_apart(cache_dir: Seq<char>, a: ItemId, b: ItemId)
    requires
        cache_dir.len() > 0,
        cache_dir[cache_dir.len() - 1] != '/',
        thumb_path_of(cache_dir, a) == thumb_path_of(cache_dir, b),
    ensures
        a == b,
{
    law_places(cache_dir, cache_dir, a);
    law_places(cache_dir, cache_dir, b);
    let head = cache_dir + "/thumbs/"@;
    let x = hyphenated_text(a.bits);
    let y = hyphenated_text(b.bits);
    let path = thumb_path_of(cache_dir, a);
    let n = head.len() as int;
    assert(x =~= path.subrange(n, n + 36));
    assert(y =~= path.subrange(n, n + 36));
    crate::ids::lemma_text_is_injective(a.bits, b.bits);
}

/// A directory that is given is used, else the one that the environment names,
/// else the default; there is none only where all three are missing.
pub proof fn law_directory_choice(
    given: Option<Seq<char>>,
    from_env: Option<Seq<char>>,
    default: Option<Seq<char>>,
    dir: Seq<char>,
)
    ensures
        chosen_dir(Some(dir), from_env, default) == Some(dir),
        chosen_dir(None, Some(dir), default) == Some(dir),
        chosen_dir(None, None, Some(dir)) == Some(dir),
        chosen_dir(given, from_env, default) is None <==> given is None && from_env is None
            && default is None,
{
}

proof fn lemma_parts_split(a: Seq<char>, b: Seq<char>)
    ensures
        parts(a + seq!['/'] + b) == parts(a) + parts(b),
    decreases b.len(),
{
    let all = a + seq!['/'] + b;
    lemma_parts(a);
    lemma_parts(b);
    if b.len() == 0 {
        assert(all =~= a + seq!['/']);
        assert(all.drop_last() =~= a);
        assert(all.last() == '/');
        assert(parts(a).push(Seq::empty()) =~= parts(a) + seq![Seq::<char>::empty()]);
    } else {
        let front = b.drop_last();
        lemma_parts_split(a, front);
        lemma_parts(front);
        assert(all.drop_last() =~= a + seq!['/'] + front);
        assert(all.last() == b.last());
        let before = parts(a) + parts(front);
        assert(before.last() == parts(front).last());
        if b.last() == '/' {
            assert(before.push(Seq::empty()) =~= parts(a) + parts(front).push(Seq::empty()));
        } else {
            let name = parts(front).last().push(b.last());
            assert(before.drop_last().push(name) =~= parts(a) + parts(front).drop_last().push(
                name,
            ));
        }
    }
}

proof fn lemma_named_split(a: Seq<Seq<char>>, b: Seq<Seq<char>>)
    ensures
        named(a + b) == named(a) + named(b),
    decreases b.len(),
{
    if b.len() == 0 {
        assert(a + b =~= a);
        assert(named(a) + named(b) =~= named(a));
    } else {
        assert((a + b).drop_last() =~= a + b.drop_last());
        assert((a + b).last() == b.last());
        lemma_named_split(a, b.drop_last());
        assert(named(a + b) =~= named(a) + named(b));
    }
}

proof fn lemma_one_part(name: Seq<char>)
    requires
        !name.contains('/'),
    ensures
        parts(name) == seq![name],
    decreases name.len(),
{
    if name.len() > 0 {
        let front = name.drop_last();
        assert(!front.contains('/')) by {
            if front.contains('/') {
                let i = choose|i: int| 0 <= i < front.len() && front[i] == '/';
                assert(name[i] == '/');
            }
        }
        lemma_one_part(front);
        assert(name[name.len() - 1] == name.last());
        assert(front.push(name.last()) =~= name);
        assert(seq![front].drop_last().push(name) =~= seq![name]);
    } else {
        assert(name =~= Seq::empty());
    }
}

/// Slashes at the end of a path, repeated slashes and dots between slashes count
/// for nothing.
pub proof fn law_same_path(a: Seq<char>, b: Seq<char>)
    requires
        a.len() > 0,
    ensures
        components(a + seq!['/']) == components(a),
        components(a + seq!['/', '/'] + b) == components(a + seq!['/'] + b),
        components(a + seq!['/', '.', '/'] + b) == components(a + seq!['/'] + b),
{
    let none = Seq::<char>::empty();
    let dot = seq!['.'];
    let one = a + seq!['/'] + b;
    let two = a + seq!['/', '/'] + b;
    let dotted = a + seq!['/', '.', '/'] + b;
    lemma_parts(a);
    lemma_parts_split(a, b);
    lemma_parts_split(a, none);
    assert(a + seq!['/'] + none =~= a + seq!['/']);
    lemma_parts_split(a, seq!['/'] + b);
    assert(a + seq!['/'] + (seq!['/'] + b) =~= two);
    lemma_parts_split(none, b);
    assert(none + seq!['/'] + b =~= seq!['/'] + b);
    lemma_parts_split(a, dot + seq!['/'] + b);
    assert(a + seq!['/'] + (dot + seq!['/'] + b) =~= dotted);
    lemma_parts_split(dot, b);
    lemma_one_part(dot);
    lemma_one_part(none);
    lemma_named_split(parts(a), parts(b));
    lemma_named_split(parts(a), parts(none));
    lemma_named_split(parts(a), parts(none) + parts(b));
    lemma_named_split(parts(none), parts(b));
    lemma_named_split(parts(a), parts(dot) + parts(b));
    lemma_named_split(parts(dot), parts(b));
    assert(seq![none].drop_last() =~= Seq::<Seq<char>>::empty());
    assert(seq![dot].drop_last() =~= Seq::<Seq<char>>::empty());
    assert(named(Seq::<Seq<char>>::empty()) =~= Seq::empty());
    assert(seq![none].last() == none && seq![dot].last() == dot);
    assert(named(parts(none)) =~= Seq::empty());
    assert(named(parts(dot)) =~= Seq::empty());
    assert(named(parts(a)) + named(parts(none)) =~= named(parts(a)));
    assert(Seq::<Seq<char>>::empty() + named(parts(b)) =~= named(parts(b)));
    assert(one[0] == a[0] && two[0] == a[0] && dotted[0] == a[0]);
    assert((a + seq!['/'])[0] == a[0]);
}

/// Paths whose last names differ are different paths: the last component of a
/// path is its last name.
pub proof fn law_different_names(dir: Seq<char>, name: Seq<char>)
    requires
        dir.len() > 0,
        name.len() > 0,
        !name.contains('/'),
        name != seq!['.'],
    ensures
        components(dir + seq!['/'] + name).last() == name,
        components(dir + seq!['/'] + name) == components(dir).push(name),
{
    let all = dir + seq!['/'] + name;
    lemma_parts(dir);
    lemma_parts_split(dir, name);
    lemma_one_part(name);
    lemma_named_split(parts(dir), parts(name));
    assert(seq![name].drop_last() =~= Seq::<Seq<char>>::empty());
    assert(named(seq![name].drop_last()) =~= Seq::empty());
    assert(named(parts(name)) =~= seq![name]);
    assert(all[0] == dir[0]);
    assert(parts(all)[0] == parts(dir)[0]);
    assert(components(all) =~= components(dir).push(name));
}

/// A name is a path of one component; behind a slash, or behind a dot and a
/// slash, it is one of two.
pub proof fn law_short_paths(name: Seq<char>)
    requires
        name.len() > 0,
        !name.contains('/'),
        name != seq!['.'],
    ensures
        components(name) == seq![name],
        components(seq!['/']) == seq![seq!['/']],
        components(seq!['.']) == seq![seq!['.']],
        components(seq!['/'] + name) == seq![seq!['/'], name],
        components(seq!['.', '/'] + name) == seq![seq!['.'], name],
{
    let none = Seq::<char>::empty();
    let dot = seq!['.'];
    lemma_one_part(name);
    lemma_one_part(none);
    lemma_one_part(dot);
    lemma_parts_split(none, name);
    lemma_parts_split(none, none);
    assert(none + seq!['/'] + name =~= seq!['/'] + name);
    assert(none + seq!['/'] + none =~= seq!['/']);
    lemma_named_split(parts(none), parts(name));
    lemma_named_split(parts(none), parts(none));
    assert(seq![none].drop_last() =~= Seq::<Seq<char>>::empty());
    assert(seq![dot].drop_last() =~= Seq::<Seq<char>>::empty());
    assert(seq![name].drop_last() =~= Seq::<Seq<char>>::empty());
    assert(named(Seq::<Seq<char>>::empty()) =~= Seq::empty());
    assert(seq![none].last() == none && seq![dot].last() == dot && seq![name].last() == name);
    assert(named(parts(none)) =~= Seq::empty());
    assert(named(parts(dot)) =~= Seq::empty());
    assert(named(parts(name)) =~= seq![name]);
    assert(!(name[0] == '/')) by {
        if name[0] == '/' {
            assert(name.contains('/'));
        }
    }
    assert((seq!['/'] + name)[0] == '/');
    assert(components(name) =~= seq![name]);
    assert(components(seq!['/']) =~= seq![seq!['/']]);
    assert(components(dot) =~= seq![dot]);
    assert(components(seq!['/'] + name) =~= seq![seq!['/'], name]);
    law_different_names(dot, name);
    assert(dot + seq!['/'] + name =~= seq!['.', '/'] + name);
    assert(components(dot).push(name) =~= seq![dot, name]);
}

} // verus!
