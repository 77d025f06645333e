//! The organizing pass: enumerate the screenshot files of the watched
//! directory, parse each file name's identifier prefix, resolve it against the
//! catalogs, and plan the move of each resolved file into a subdirectory named
//! after its game.

use vstd::prelude::*;

use crate::steam::{lookup, lookup_spec, resolve_spec, Game, GameV};
use crate::text::{find_char, find_from, parse_u64_range, parse_u64_spec};

verus! {

/// The identifier encoded as a screenshot file name's prefix: the characters
/// up to the first underscore (or the whole name when it has none), parsed as
/// an unsigned number.
pub open spec fn file_id_spec(name: Seq<char>) -> Option<u64> {
    parse_u64_spec(name.subrange(0, find_from(name, '_', 0)))
}

/// Parse the identifier prefix of a screenshot file name.
pub fn file_id(name: &str) -> (r: Option<u64>)
    ensures
        r == file_id_spec(name@),
{
    let e = find_char(name, '_', 0);
    parse_u64_range(name, 0, e)
}

/// A display name that is safe to use as a directory name: nonempty, free of
/// path separators, and not one of the dot directories.
pub open spec fn safe_name_spec(name: Seq<char>) -> bool {
    &&& name.len() > 0
    &&& (forall|i: int| 0 <= i < name.len() ==> #[trigger] name[i] != '/' && name[i] != '\\')
    &&& !(name.len() == 1 && name[0] == '.')
    &&& !(name.len() == 2 && name[0] == '.' && name[1] == '.')
}

/// Is `name` safe to use as a directory name?
pub fn safe_name(name: &str) -> (r: bool)
    ensures
        r == safe_name_spec(name@),
{
    let n = name.unicode_len();
    if n == 0 {
        return false;
    }
    if n == 1 && name.get_char(0) == '.' {
        return false;
    }
    if n == 2 && name.get_char(0) == '.' && name.get_char(1) == '.' {
        return false;
    }
    let mut i: usize = 0;
    while i < n
        invariant
            0 <= i <= n == name@.len(),
            forall|j: int| 0 <= j < i ==> #[trigger] name@[j] != '/' && name@[j] != '\\',
        decreases n - i,
    {
        let c = name.get_char(i);
        if c == '/' || c == '\\' {
            return false;
        }
        i = i + 1;
    }
    true
}

/// One planned relocation: the file, and the directory (named after the
/// resolved game) it moves into.
pub struct FileMove {
    pub file: String,
    pub directory: String,
}

/// The mathematical shape of a [`FileMove`].
pub ghost struct MoveV {
    pub file: Seq<char>,
    pub directory: Seq<char>,
}

impl DeepView for FileMove {
    type V = MoveV;

    open spec fn deep_view(&self) -> MoveV {
        MoveV { file: self.file@, directory: self.directory@ }
    }
}

/// Whether a pass moves the file called `name`: its prefix parses as an
/// identifier, the identifier resolves to a display name, and that name is
/// safe to use as a directory name.
pub open spec fn should_move(name: Seq<char>, local: Seq<GameV>, remote: Option<Seq<GameV>>) -> bool {
    match file_id_spec(name) {
        Some(id) => match resolve_spec(id, local, remote) {
            Some(dir) => safe_name_spec(dir),
            None => false,
        },
        None => false,
    }
}

/// The directory a moved file goes into: the display name its identifier
/// resolves to.
pub open spec fn dest_of(name: Seq<char>, local: Seq<GameV>, remote: Option<Seq<GameV>>) -> Seq<
    char,
>
    recommends
        should_move(name, local, remote),
{
    match file_id_spec(name) {
        Some(id) => match resolve_spec(id, local, remote) {
            Some(dir) => dir,
            None => Seq::empty(),
        },
        None => Seq::empty(),
    }
}

/// The moves a pass plans over `files`, in file order: one per file that
/// [`should_move`], into the directory [`dest_of`] names.
pub open spec fn moves_spec(
    files: Seq<Seq<char>>,
    local: Seq<GameV>,
    remote: Option<Seq<GameV>>,
) -> Seq<MoveV>
    decreases files.len(),
{
    if files.len() == 0 {
        Seq::empty()
    } else {
        let prior = moves_spec(files.drop_last(), local, remote);
        let name = files.last();
        if should_move(name, local, remote) {
            prior + seq![MoveV { file: name, directory: dest_of(name, local, remote) }]
        } else {
            prior
        }
    }
}

/// The files a pass leaves in the watched root, in file order: those it does
/// not move.
pub open spec fn remaining_spec(
    files: Seq<Seq<char>>,
    local: Seq<GameV>,
    remote: Option<Seq<GameV>>,
) -> Seq<Seq<char>>
    decreases files.len(),
{
    if files.len() == 0 {
        Seq::empty()
    } else {
        let prior = remaining_spec(files.drop_last(), local, remote);
        if should_move(files.last(), local, remote) {
            prior
        } else {
            prior + seq![files.last()]
        }
    }
}

/// The file called `name` would send the pass to the remote catalog: its
/// prefix parses as an identifier the local catalog does not have.
pub open spec fn wants_remote(name: Seq<char>, local: Seq<GameV>) -> bool {
    match file_id_spec(name) {
        Some(id) => lookup_spec(local, id) is None,
        None => false,
    }
}

/// Some file of the pass would send it to the remote catalog.
pub open spec fn needs_remote_spec(files: Seq<Seq<char>>, local: Seq<GameV>) -> bool {
    exists|i: int| 0 <= i < files.len() && wants_remote(#[trigger] files[i], local)
}

/// Would a pass over `files` consult the remote catalog? True exactly when
/// some file's identifier parses but is missing from the local catalog.
pub fn needs_remote(files: &Vec<String>, local: &Vec<Game>) -> (r: bool)
    ensures
        r == needs_remote_spec(files.deep_view(), local.deep_view()),
{
    let ghost fv = files.deep_view();
    let ghost lv = local.deep_view();
    let mut i: usize = 0;
    while i < files.len()
        invariant
            0 <= i <= files.len(),
            fv == files.deep_view(),
            lv == local.deep_view(),
            fv.len() == files.len(),
            forall|j: int| 0 <= j < i ==> !wants_remote(#[trigger] fv[j], lv),
        decreases files.len() - i,
    {
        let name = &files[i];
        if let Some(id) = file_id(name.as_str()) {
            if lookup(local, id).is_none() {
                assert(wants_remote(fv[i as int], lv));
                return true;
            }
        }
        i = i + 1;
    }
    false
}

/// What one organizing pass over the watched directory plans and reports.
pub struct OrganizeReport {
    /// The planned relocations, in file order.
    pub moves: Vec<FileMove>,
    /// How many files the pass considered.
    pub total: usize,
    /// How often the pass turned to the remote catalog source.
    pub remote_fetches: usize,
}

/// Plan one organizing pass. `files` are the names of the regular files found
/// directly in the watched directory; `local` is the catalog built from the
/// installed games' manifests; `remote` is the account's library when one
/// could be fetched. Every file whose identifier resolves to a directory-safe
/// display name is planned to move into the directory of that name; every
/// other file is left in place. The remote source is consulted at most once,
/// and only when some file's identifier is missing from the local catalog.
pub fn organize(files: &Vec<String>, local: &Vec<Game>, remote: Option<&Vec<Game>>) -> (r:
    OrganizeReport)
    ensures
        r.moves.deep_view() == moves_spec(files.deep_view(), local.deep_view(), remote.deep_view()),
        r.total == files.len(),
        r.remote_fetches <= 1,
        r.remote_fetches == 1 <==> (remote is Some && needs_remote_spec(
            files.deep_view(),
            local.deep_view(),
        )),
{
    let ghost fv = files.deep_view();
    let ghost lv = local.deep_view();
    let ghost rv = remote.deep_view();
    let mut moves: Vec<FileMove> = Vec::new();
    let mut fetches: usize = 0;
    proof {
        assert(fv.take(0).len() == 0);
        assert(moves.deep_view() =~= moves_spec(fv.take(0), lv, rv));
    }
    let mut i: usize = 0;
    while i < files.len()
        invariant
            0 <= i <= files.len(),
            fv == files.deep_view(),
            lv == local.deep_view(),
            rv == remote.deep_view(),
            fv.len() == files.len(),
            moves.deep_view() == moves_spec(fv.take(i as int), lv, rv),
            fetches == 1 <==> (remote is Some && needs_remote_spec(fv.take(i as int), lv)),
            fetches <= 1,
        decreases files.len() - i,
    {
        let name = &files[i];
        let ghost prev = moves.deep_view();
        assert(fv[i as int] == name@);
        match file_id(name.as_str()) {
            Some(id) => {
                let local_name = lookup(local, id);
                let dir_opt: Option<String> = if local_name.is_some() {
                    local_name
                } else {
                    match remote {
                        Some(catalog) => {
                            if fetches == 0 {
                                fetches = 1;
                            }
                            lookup(catalog, id)
                        },
                        None => None,
                    }
                };
                assert(dir_opt.deep_view() == resolve_spec(id, lv, rv));
                match dir_opt {
                    Some(dir) => {
                        if safe_name(dir.as_str()) {
                            assert(should_move(fv[i as int], lv, rv));
                            assert(dest_of(fv[i as int], lv, rv) == dir@);
                            moves.push(FileMove { file: name.clone(), directory: dir });
                            proof {
                                assert(moves.deep_view() =~= prev + seq![
                                    MoveV {
                                        file: fv[i as int],
                                        directory: dest_of(fv[i as int], lv, rv),
                                    },
                                ]);
                            }
                        } else {
                            assert(!should_move(fv[i as int], lv, rv));
                        }
                    },
                    None => {
                        assert(!should_move(fv[i as int], lv, rv));
                    },
                }
            },
            None => {
                assert(!should_move(fv[i as int], lv, rv));
                assert(!wants_remote(fv[i as int], lv));
            },
        }
        proof {
            assert(fv.take(i + 1).drop_last() =~= fv.take(i as int));
            assert(fv.take(i + 1).last() == fv[i as int]);
            assert(moves.deep_view() =~= moves_spec(fv.take(i + 1), lv, rv));
            lemma_needs_remote_take_step(fv, lv, i as int);
        }
        i = i + 1;
    }
    proof {
        assert(fv.take(files.len() as int) =~= fv);
    }
    OrganizeReport { moves, total: files.len(), remote_fetches: fetches }
}

/// Every move a pass plans is of a file the pass should move, into the
/// directory its identifier resolves to.
proof fn lemma_moves_only_should(files: Seq<Seq<char>>, local: Seq<GameV>, remote: Option<Seq<GameV>>)
    ensures
        forall|j: int|
            0 <= j < moves_spec(files, local, remote).len() ==> {
                let mv = #[trigger] moves_spec(files, local, remote)[j];
                &&& should_move(mv.file, local, remote)
                &&& mv.directory == dest_of(mv.file, local, remote)
            },
    decreases files.len(),
{
    if files.len() > 0 {
        lemma_moves_only_should(files.drop_last(), local, remote);
        let prior = moves_spec(files.drop_last(), local, remote);
        let whole = moves_spec(files, local, remote);
        assert forall|j: int| 0 <= j < whole.len() implies {
            let mv = #[trigger] whole[j];
            &&& should_move(mv.file, local, remote)
            &&& mv.directory == dest_of(mv.file, local, remote)
        } by {
            if j < prior.len() {
                assert(whole[j] == prior[j]);
            } else {
                assert(should_move(files.last(), local, remote));
                assert(whole[j] == MoveV {
                    file: files.last(),
                    directory: dest_of(files.last(), local, remote),
                });
            }
        }
    }
}

/// Every file a pass leaves in place is one the pass should not move.
proof fn lemma_remaining_only_skipped(
    files: Seq<Seq<char>>,
    local: Seq<GameV>,
    remote: Option<Seq<GameV>>,
)
    ensures
        forall|j: int|
            0 <= j < remaining_spec(files, local, remote).len() ==> !should_move(
                #[trigger] remaining_spec(files, local, remote)[j],
                local,
                remote,
            ),
    decreases files.len(),
{
    if files.len() > 0 {
        lemma_remaining_only_skipped(files.drop_last(), local, remote);
        let prior = remaining_spec(files.drop_last(), local, remote);
        let whole = remaining_spec(files, local, remote);
        assert forall|j: int| 0 <= j < whole.len() implies !should_move(
            #[trigger] whole[j],
            local,
            remote,
        ) by {
            if j < prior.len() {
                assert(whole[j] == prior[j]);
            } else {
                assert(whole[j] == files.last());
            }
        }
    }
}

/// A file the pass should move appears among the planned moves.
proof fn lemma_moves_contains(
    files: Seq<Seq<char>>,
    local: Seq<GameV>,
    remote: Option<Seq<GameV>>,
    i: int,
)
    requires
        0 <= i < files.len(),
        should_move(files[i], local, remote),
    ensures
        moves_spec(files, local, remote).contains(
            MoveV { file: files[i], directory: dest_of(files[i], local, remote) },
        ),
    decreases files.len(),
{
    let mv = MoveV { file: files[i], directory: dest_of(files[i], local, remote) };
    let prior = moves_spec(files.drop_last(), local, remote);
    if i == files.len() - 1 {
        assert(moves_spec(files, local, remote)[prior.len() as int] == mv);
    } else {
        assert(files.drop_last()[i] == files[i]);
        lemma_moves_contains(files.drop_last(), local, remote, i);
        let j = choose|j: int| 0 <= j < prior.len() && prior[j] == mv;
        assert(moves_spec(files, local, remote)[j] == mv);
    }
}

/// A file the pass should not move appears among the files left in place.
proof fn lemma_remaining_contains(
    files: Seq<Seq<char>>,
    local: Seq<GameV>,
    remote: Option<Seq<GameV>>,
    i: int,
)
    requires
        0 <= i < files.len(),
        !should_move(files[i], local, remote),
    ensures
        remaining_spec(files, local, remote).contains(files[i]),
    decreases files.len(),
{
    let prior = remaining_spec(files.drop_last(), local, remote);
    if i == files.len() - 1 {
        assert(remaining_spec(files, local, remote)[prior.len() as int] == files[i]);
    } else {
        assert(files.drop_last()[i] == files[i]);
        lemma_remaining_contains(files.drop_last(), local, remote, i);
        let j = choose|j: int| 0 <= j < prior.len() && prior[j] == files[i];
        assert(remaining_spec(files, local, remote)[j] == files[i]);
    }
}

/// A pass over files none of which should move plans no moves.
proof fn lemma_no_moves_when_none_should(
    files: Seq<Seq<char>>,
    local: Seq<GameV>,
    remote: Option<Seq<GameV>>,
)
    requires
        forall|j: int| 0 <= j < files.len() ==> !should_move(#[trigger] files[j], local, remote),
    ensures
        moves_spec(files, local, remote) == Seq::<MoveV>::empty(),
    decreases files.len(),
{
    if files.len() > 0 {
        assert(files.last() == files[files.len() - 1]);
        lemma_no_moves_when_none_should(files.drop_last(), local, remote);
    }
    assert(moves_spec(files, local, remote) =~= Seq::<MoveV>::empty());
}

/// A file whose identifier resolves to a directory-safe display name is
/// planned to move into the directory of that name, and no file carrying that
/// identifier is left in the watched root.
pub proof fn lemma_resolved_file_moved(
    files: Seq<Seq<char>>,
    local: Seq<GameV>,
    remote: Option<Seq<GameV>>,
    i: int,
    id: u64,
    dir: Seq<char>,
)
    requires
        0 <= i < files.len(),
        file_id_spec(files[i]) == Some(id),
        resolve_spec(id, local, remote) == Some(dir),
        safe_name_spec(dir),
    ensures
        moves_spec(files, local, remote).contains(MoveV { file: files[i], directory: dir }),
        forall|j: int|
            0 <= j < remaining_spec(files, local, remote).len() ==> file_id_spec(
                #[trigger] remaining_spec(files, local, remote)[j],
            ) != Some(id),
{
    assert(should_move(files[i], local, remote));
    assert(dest_of(files[i], local, remote) == dir);
    lemma_moves_contains(files, local, remote, i);
    lemma_remaining_only_skipped(files, local, remote);
    assert forall|j: int|
        0 <= j < remaining_spec(files, local, remote).len() implies file_id_spec(
        #[trigger] remaining_spec(files, local, remote)[j],
    ) != Some(id) by {
        let g = remaining_spec(files, local, remote)[j];
        if file_id_spec(g) == Some(id) {
            assert(should_move(g, local, remote));
        }
    }
}

/// A file whose identifier neither catalog resolves is left in place and is
/// not among the planned moves.
pub proof fn lemma_unresolved_file_left(
    files: Seq<Seq<char>>,
    local: Seq<GameV>,
    remote: Option<Seq<GameV>>,
    i: int,
    id: u64,
)
    requires
        0 <= i < files.len(),
        file_id_spec(files[i]) == Some(id),
        resolve_spec(id, local, remote) is None,
    ensures
        remaining_spec(files, local, remote).contains(files[i]),
        forall|j: int|
            0 <= j < moves_spec(files, local, remote).len() ==> (#[trigger] moves_spec(
                files,
                local,
                remote,
            )[j]).file != files[i],
{
    assert(!should_move(files[i], local, remote));
    lemma_remaining_contains(files, local, remote, i);
    lemma_moves_only_should(files, local, remote);
    assert forall|j: int|
        0 <= j < moves_spec(files, local, remote).len() implies (#[trigger] moves_spec(
        files,
        local,
        remote,
    )[j]).file != files[i] by {
        let mv = moves_spec(files, local, remote)[j];
        if mv.file == files[i] {
            assert(should_move(files[i], local, remote));
        }
    }
}

/// The pass accounts for every file exactly once: each file is either planned
/// to move or left in place, so the end-of-pass summary of moved against
/// considered files adds up.
pub proof fn lemma_pass_accounts_for_all(
    files: Seq<Seq<char>>,
    local: Seq<GameV>,
    remote: Option<Seq<GameV>>,
)
    ensures
        moves_spec(files, local, remote).len() + remaining_spec(files, local, remote).len()
            == files.len(),
    decreases files.len(),
{
    if files.len() > 0 {
        lemma_pass_accounts_for_all(files.drop_last(), local, remote);
    }
}

/// Running the pass again on the files a first pass left in place plans no
/// further moves: with no filesystem changes in between, the second pass
/// moves nothing.
pub proof fn lemma_second_pass_moves_nothing(
    files: Seq<Seq<char>>,
    local: Seq<GameV>,
    remote: Option<Seq<GameV>>,
)
    ensures
        moves_spec(remaining_spec(files, local, remote), local, remote) == Seq::<MoveV>::empty(),
{
    lemma_remaining_only_skipped(files, local, remote);
    lemma_no_moves_when_none_should(remaining_spec(files, local, remote), local, remote);
}

/// Extending a pass by one file sends it to the remote catalog exactly when
/// the shorter pass already did or the new file does.
proof fn lemma_needs_remote_take_step(files: Seq<Seq<char>>, local: Seq<GameV>, i: int)
    requires
        0 <= i < files.len(),
    ensures
        needs_remote_spec(files.take(i + 1), local) == (needs_remote_spec(files.take(i), local)
            || wants_remote(files[i], local)),
{
    let a = files.take(i);
    let b = files.take(i + 1);
    if needs_remote_spec(a, local) {
        let j = choose|j: int| 0 <= j < a.len() && wants_remote(a[j], local);
        assert(b[j] == a[j]);
        assert(wants_remote(b[j], local));
    }
    if wants_remote(files[i], local) {
        assert(b[i] == files[i]);
        assert(wants_remote(b[i], local));
    }
    if needs_remote_spec(b, local) {
        let j = choose|j: int| 0 <= j < b.len() && wants_remote(b[j], local);
        if j < i {
            assert(a[j] == b[j]);
            assert(wants_remote(a[j], local));
        } else {
            assert(b[j] == files[i]);
        }
    }
}

} // verus!
