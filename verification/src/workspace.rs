//! Which workspace a memory belongs to, and where it is kept.

use vstd::prelude::*;
use vstd::slice::slice_subrange;

use crate::number;
use crate::text;

verus! {

// ------------------------------------------------------------------- keys
/// The number that a key begins with.
pub const KEY_BASIS: u64 = 0xcbf29ce484222325;

/// The number that a key is multiplied with for each byte.
pub const KEY_PRIME: u64 = 0x100000001b3;

/// The hash of bytes: for each byte exclusive or, then multiplication.
pub open spec fn hash_of(bytes: Seq<u8>) -> u64
    decreases bytes.len(),
{
    if bytes.len() == 0 {
        KEY_BASIS
    } else {
        (hash_of(bytes.drop_last()) ^ (bytes.last() as u64)).wrapping_mul(KEY_PRIME)
    }
}

/// The key of an identity: the hash of its bytes in sixteen hexadecimal digits.
pub open spec fn key_of(identity: Seq<char>) -> Seq<char> {
    number::hex(hash_of(vstd::utf8::encode_utf8(identity)) as nat, 16)
}

/// The key of an identity.
pub fn stable_key(value: &str) -> (key: String)
    ensures
        key@ == key_of(value@),
{
    let bytes: &[u8] = value.as_bytes();
    let mut hash: u64 = KEY_BASIS;
    assert(bytes@.take(0) =~= seq![]);
    for i in 0..bytes.len()
        invariant
            hash == hash_of(bytes@.take(i as int)),
    {
        assert(bytes@.take(i as int + 1).drop_last() =~= bytes@.take(i as int));
        hash = (hash ^ (bytes[i] as u64)).wrapping_mul(KEY_PRIME);
    }
    assert(bytes@.take(bytes@.len() as int) =~= bytes@);
    let mut key: String = String::new();
    number::push_hex(&mut key, hash, 16);
    assert(key@ =~= key_of(value@));
    key
}

/// A key has sixteen characters, whatever it is the key of.
pub proof fn key_has_sixteen_characters(identity: Seq<char>)
    ensures
        key_of(identity).len() == 16,
{
    lemma_hex_len(hash_of(vstd::utf8::encode_utf8(identity)) as nat, 16);
}

proof fn lemma_hex_len(n: nat, width: nat)
    ensures
        number::hex(n, width).len() == width,
    decreases width,
{
    if width > 0 {
        lemma_hex_len(n / 16, (width - 1) as nat);
    }
}

// ---------------------------------------------------------------- markers
/// A text without a quotation mark at both ends; none where one is missing.
pub open spec fn unquoted(s: Seq<char>) -> Option<Seq<char>> {
    if s.len() < 2 || s[0] != '"' || s.last() != '"' {
        None
    } else {
        Some(s.subrange(1, s.len() - 1))
    }
}

/// The id that a line of a marker gives: `id = "..."`. A comment gives none.
pub open spec fn line_id(raw: Seq<char>) -> Option<Seq<char>> {
    let line = text::trimmed(raw);
    if line.len() == 0 || line[0] == '#' || !text::begins(line, "id"@) {
        None
    } else {
        let rest = text::trimmed_start(line.skip(2));
        if rest.len() == 0 || rest[0] != '=' {
            None
        } else {
            unquoted(text::trimmed(rest.skip(1)))
        }
    }
}

/// The first id that lines give.
pub open spec fn first_id(lines: Seq<Seq<char>>) -> Option<Seq<char>>
    decreases lines.len(),
{
    if lines.len() == 0 {
        None
    } else {
        match line_id(lines[0]) {
            Some(id) => Some(id),
            None => first_id(lines.drop_first()),
        }
    }
}

/// Whether an id can be that of a workspace: letters, digits, points, underscores and dashes.
pub open spec fn valid_id(id: Seq<char>) -> bool {
    id.len() > 0 && forall|i: int| 0 <= i < id.len() ==> id_char(#[trigger] id[i])
}

/// Whether a character can stand in the id of a workspace.
pub open spec fn id_char(c: char) -> bool {
    text::lower_letter(c) || text::upper_letter(c) || text::digit(c) || c == '.' || c == '_' || c
        == '-'
}

/// The id of the workspace that a marker names, or why it names none.
pub open spec fn marker_id(marker: Seq<char>, content: Seq<char>) -> Result<Seq<char>, Seq<char>> {
    match first_id(text::lines(content)) {
        None => Err("workspace marker "@ + marker + " requires id = \"...\""@),
        Some(id) => if valid_id(id) {
            Ok(id)
        } else {
            Err("workspace marker "@ + marker + " has invalid id "@ + text::quoted(id))
        },
    }
}

/// The id that a line of a marker gives.
fn parse_line_id(raw: &str) -> (id: Option<String>)
    ensures
        match id {
            Some(id) => line_id(raw@) == Some(id@),
            None => line_id(raw@) is None,
        },
{
    let chars: Vec<char> = text::chars_of(raw);
    let line = text::trim(chars.as_slice());
    if line.len() == 0 || line[0] == '#' {
        return None;
    }
    proof {
        reveal_strlit("id");
    }
    let rest = match text::strip_prefix(line, "id") {
        None => {
            return None;
        },
        Some(rest) => text::trim_start(rest),
    };
    if rest.len() == 0 || rest[0] != '=' {
        return None;
    }
    let value = text::trim(slice_subrange(rest, 1, rest.len()));
    assert(rest@.skip(1) =~= rest@.subrange(1, rest@.len() as int));
    if value.len() < 2 || value[0] != '"' || value[value.len() - 1] != '"' {
        return None;
    }
    Some(text::string_of(slice_subrange(value, 1, value.len() - 1)))
}

/// Whether an id can be that of a workspace.
fn is_valid_id(id: &str) -> (yes: bool)
    ensures
        yes == valid_id(id@),
{
    let chars: Vec<char> = text::chars_of(id);
    for i in 0..chars.len()
        invariant
            chars@ == id@,
            forall|j: int| 0 <= j < i ==> id_char(#[trigger] id@[j]),
    {
        let c: char = chars[i];
        if !(('a' <= c && c <= 'z') || ('A' <= c && c <= 'Z') || text::is_digit(c) || c == '.' || c
            == '_' || c == '-') {
            assert(!id_char(id@[i as int]));
            return false;
        }
    }
    chars.len() > 0
}

/// Reads the id of the workspace that a marker names.
pub fn parse_workspace_id(marker: &str, content: &str) -> (id: Result<String, String>)
    ensures
        match marker_id(marker@, content@) {
            Ok(said) => id matches Ok(found) && found@ == said,
            Err(message) => id matches Err(told) && told@ == message,
        },
{
    let chars: Vec<char> = text::chars_of(content);
    let lines: Vec<String> = text::split_lines(chars.as_slice());
    let ghost all = text::texts(lines@);
    assert(all.skip(0) =~= all);
    for i in 0..lines.len()
        invariant
            all == text::texts(lines@),
            all == text::lines(content@),
            first_id(all) == first_id(all.skip(i as int)),
    {
        assert(all.skip(i as int)[0] == all[i as int]);
        assert(all.skip(i as int).drop_first() =~= all.skip(i as int + 1));
        if let Some(id) = parse_line_id(lines[i].as_str()) {
            if is_valid_id(id.as_str()) {
                return Ok(id);
            }
            let mut told: String = "workspace marker ".to_owned();
            told.append(marker);
            told.append(" has invalid id ");
            told.append(text::quote(id.as_str()).as_str());
            return Err(told);
        }
    }
    let mut told: String = "workspace marker ".to_owned();
    told.append(marker);
    told.append(" requires id = \"...\"");
    Err(told)
}

/// The line `id = "..."` names the id between its quotation marks.
pub proof fn marker_line_names_its_id(id: Seq<char>)
    ensures
        line_id("id = \""@ + id + "\""@) == Some(id),
{
    reveal_strlit("id = \"");
    reveal_strlit("\"");
    reveal_strlit("id");
    let none = Seq::<char>::empty();
    let space = seq![' '];
    let line = "id = \""@ + id + "\""@;
    let value = seq!['"'] + id + seq!['"'];
    let assigned = seq!['='] + (space + value);
    assert(line =~= seq!['i', 'd', ' '] + assigned);
    text::lemma_trim(none, line, none);
    assert(none + line + none =~= line);
    assert(line.take(2) =~= "id"@);
    let rest = line.skip(2);
    assert(rest =~= space + assigned);
    assert(rest.drop_first() =~= assigned);
    assert(text::trimmed_start(rest) == text::trimmed_start(assigned));
    assert(text::trimmed_start(assigned) == assigned);
    assert(assigned.skip(1) =~= space + value);
    text::lemma_trim(space, value, none);
    assert(space + value + none =~= space + value);
    assert(value.subrange(1, value.len() - 1) =~= id);
}

// --------------------------------------------------------------- contexts
/// The identity of a repository: its remote, or where it stands when it has none.
pub open spec fn identity_of(remote: Option<Seq<char>>, root: Seq<char>) -> Seq<char> {
    match remote {
        Some(remote) if text::trimmed(remote).len() > 0 => text::trimmed(remote),
        _ => root,
    }
}

/// The identity of a repository.
pub fn repository_identity(remote: Option<&str>, root: &str) -> (identity: String)
    ensures
        identity@ == identity_of(
            match remote {
                Some(remote) => Some(remote@),
                None => None,
            },
            root@,
        ),
{
    if let Some(remote) = remote {
        let chars: Vec<char> = text::chars_of(remote);
        let named = text::trim(chars.as_slice());
        if named.len() > 0 {
            return text::string_of(named);
        }
    }
    root.to_owned()
}

/// Where the memory of a workspace is kept.
#[derive(Clone, Debug, PartialEq, Eq)]
pub struct WorkspaceStore {
    /// Who the workspace is.
    pub identity: String,
    /// Whether a marker names the workspace.
    pub marked: bool,
    /// The directory below that of the program.
    pub directory: String,
    /// The file of the snapshot.
    pub snapshot: String,
    /// The file of the evidence.
    pub evidence: String,
}

/// Where the memory of a workspace is kept, as a view.
#[verifier::ext_equal]
pub struct StoreView {
    pub identity: Seq<char>,
    pub marked: bool,
    pub directory: Seq<char>,
    pub snapshot: Seq<char>,
    pub evidence: Seq<char>,
}

impl View for WorkspaceStore {
    type V = StoreView;

    open spec fn view(&self) -> StoreView {
        StoreView {
            identity: self.identity@,
            marked: self.marked,
            directory: self.directory@,
            snapshot: self.snapshot@,
            evidence: self.evidence@,
        }
    }
}

/// Where the memory of an identity is kept.
pub open spec fn store_at(identity: Seq<char>, marked: bool) -> StoreView {
    StoreView {
        identity,
        marked,
        directory: if marked {
            "workspaces"@
        } else {
            "repositories"@
        },
        snapshot: key_of(identity) + ".snapshot"@,
        evidence: key_of(identity) + ".evidence"@,
    }
}

/// Where the memory of a repository is kept: with its workspace where a marker names one.
pub open spec fn store_of(id: Option<Seq<char>>, repository: Seq<char>) -> StoreView {
    match id {
        Some(id) => store_at("workspace:"@ + id, true),
        None => store_at(repository, false),
    }
}

/// Two paths of one workspace share a store: those with one marker id, whatever their repositories,
/// and those of one repository where there is no marker. Stores of a workspace and of a repository
/// are never one.
pub proof fn one_workspace_has_one_store(
    a: Option<Seq<char>>,
    b: Option<Seq<char>>,
    first: Seq<char>,
    second: Seq<char>,
)
    ensures
        a is Some && a == b ==> store_of(a, first) == store_of(b, second),
        a is None && b is None && first == second ==> store_of(a, first) == store_of(b, second),
        store_of(a, first) == store_of(b, second) ==> a is Some == b is Some && store_of(
            a,
            first,
        ).identity == store_of(b, second).identity,
{
}

/// Which of some directories has the nearest marker, given which of them have one, from the
/// innermost one outwards.
pub fn nearest_marker(found: &Vec<bool>) -> (place: Option<usize>)
    ensures
        match place {
            Some(i) => {
                &&& i < found@.len()
                &&& found@[i as int]
                &&& forall|j: int| 0 <= j < i ==> !(#[trigger] found@[j])
            },
            None => forall|j: int| 0 <= j < found@.len() ==> !(#[trigger] found@[j]),
        },
{
    for i in 0..found.len()
        invariant
            forall|j: int| 0 <= j < i ==> !(#[trigger] found@[j]),
    {
        if found[i] {
            return Some(i);
        }
    }
    None
}

/// Says where the memory of a repository is kept, given the id of its workspace if it has one.
pub fn workspace_store(id: Option<&str>, repository: &str) -> (store: WorkspaceStore)
    ensures
        store@ == store_of(
            match id {
                Some(id) => Some(id@),
                None => None,
            },
            repository@,
        ),
{
    let identity: String = match id {
        Some(id) => {
            let mut identity: String = "workspace:".to_owned();
            identity.append(id);
            identity
        },
        None => repository.to_owned(),
    };
    let key: String = stable_key(identity.as_str());
    let mut snapshot: String = key.as_str().to_owned();
    snapshot.append(".snapshot");
    let mut evidence: String = key;
    evidence.append(".evidence");
    let directory: String = if id.is_some() {
        "workspaces".to_owned()
    } else {
        "repositories".to_owned()
    };
    WorkspaceStore { identity, marked: id.is_some(), directory, snapshot, evidence }
}

} // verus!
