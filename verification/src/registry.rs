//! Per-enclave proxy targets.
//!
//! Each running enclave has one file, `<uuid>.json`, in a watched directory:
//!
//! ```json
//! {
//!   "enclave_id": "<uuid>",
//!   "endpoint": "wss://<uuid>.enclaves.beta.enclavia.io",
//!   "pcrs": { "pcr0": "<hex>", "pcr1": "<hex>", "pcr2": "<hex>" },
//!   "debug_mode": true
//! }
//! ```
//!
//! The registry does no I/O. Its caller watches the directory and reads the files; the registry
//! says which files to read, takes what was read, and answers lookups by enclave id. When a file
//! is gone, it drops the target of the enclave that the file is named after, and any target that
//! came from the file.

use crate::identity::{
    id_of, id_text, law_id_text_round_trip, lemma_id_text_is_label, EnclaveId,
};
use crate::measurement::{decode_hex, hex_decoded, HexError, Pcrs, PcrsView};
use crate::text::{
    before, chars_of, lemma_index_or_len_at, lemma_index_or_len_is_first, prefix_before, same_text,
};
use std::collections::HashMap;
use std::path::PathBuf;
use vstd::prelude::*;
use vstd::std_specs::iter::IteratorSpec;
use vstd::string::*;
use vstd::utf8::encode_utf8;

verus! {

/// The path type of std.
#[verifier::external_type_specification]
#[verifier::external_body]
pub struct ExPathBuf(PathBuf);

/// The validated, in-memory shape of a proxy target. The measurements are decoded once, when
/// the target is loaded.
#[derive(Debug)]
pub struct ProxyTarget {
    pub enclave_id: EnclaveId,
    pub endpoint: String,
    pub pcrs: Pcrs,
    pub debug_mode: bool,
}

/// A proxy target with its texts and bytes as sequences.
#[verifier::ext_equal]
pub struct ProxyTargetView {
    pub enclave_id: EnclaveId,
    pub endpoint: Seq<char>,
    pub pcrs: PcrsView,
    pub debug_mode: bool,
}

impl View for ProxyTarget {
    type V = ProxyTargetView;

    open spec fn view(&self) -> ProxyTargetView {
        ProxyTargetView {
            enclave_id: self.enclave_id,
            endpoint: self.endpoint@,
            pcrs: self.pcrs@,
            debug_mode: self.debug_mode,
        }
    }
}

impl Clone for ProxyTarget {
    fn clone(&self) -> (r: ProxyTarget)
        ensures
            r@ == self@,
            r.enclave_id == self.enclave_id,
            r.endpoint@ == self.endpoint@,
            r.pcrs.pcr0@ == self.pcrs.pcr0@,
            r.pcrs.pcr1@ == self.pcrs.pcr1@,
            r.pcrs.pcr2@ == self.pcrs.pcr2@,
            r.debug_mode == self.debug_mode,
    {
        ProxyTarget {
            enclave_id: self.enclave_id,
            endpoint: self.endpoint.clone(),
            pcrs: self.pcrs.clone(),
            debug_mode: self.debug_mode,
        }
    }
}

/// The measurements of a target as its file spells them.
#[derive(Debug)]
pub struct PcrsRaw {
    pub pcr0: String,
    pub pcr1: String,
    pub pcr2: String,
}

/// A target as its file spells it.
#[derive(Debug)]
pub struct ProxyTargetRaw {
    pub enclave_id: EnclaveId,
    pub endpoint: String,
    pub pcrs: PcrsRaw,
    pub debug_mode: bool,
}

/// Why a target file has no contents. Each variant carries the text of the error behind it.
#[derive(Debug)]
pub enum FileError {
    /// The file could not be read.
    Read(String),
    /// The file does not have the shape of a target.
    Parse(String),
}

/// One measurement of a file, decoded, or the reason why it cannot be.
pub open spec fn pcr_loaded(text: Seq<char>, what: Seq<char>) -> Result<Seq<u8>, Seq<char>> {
    match hex_decoded(encode_utf8(text)) {
        Ok(bytes) => Ok(bytes),
        Err(e) => Err(what + e.text()),
    }
}

/// The target that a file holds, or the reason why it holds none.
pub open spec fn loaded(contents: Result<ProxyTargetRaw, FileError>) -> Result<
    ProxyTargetView,
    Seq<char>,
> {
    match contents {
        Err(FileError::Read(text)) => Err("read: "@ + text@),
        Err(FileError::Parse(text)) => Err("parse: "@ + text@),
        Ok(raw) => match pcr_loaded(raw.pcrs.pcr0@, "pcr0 hex: "@) {
            Err(reason) => Err(reason),
            Ok(pcr0) => match pcr_loaded(raw.pcrs.pcr1@, "pcr1 hex: "@) {
                Err(reason) => Err(reason),
                Ok(pcr1) => match pcr_loaded(raw.pcrs.pcr2@, "pcr2 hex: "@) {
                    Err(reason) => Err(reason),
                    Ok(pcr2) => Ok(
                        ProxyTargetView {
                            enclave_id: raw.enclave_id,
                            endpoint: raw.endpoint@,
                            pcrs: PcrsView { pcr0, pcr1, pcr2 },
                            debug_mode: raw.debug_mode,
                        },
                    ),
                },
            },
        },
    }
}

/// A text and another one behind it.
fn joined(a: &str, b: &str) -> (r: String)
    ensures
        r@ == a@ + b@,
{
    let mut r = String::new();
    r.append(a);
    r.append(b);
    assert(r@ =~= a@ + b@);
    r
}

fn load_pcr(text: &str, what: &str) -> (r: Result<Vec<u8>, String>)
    ensures
        match pcr_loaded(text@, what@) {
            Ok(bytes) => r is Ok && r->Ok_0@ == bytes,
            Err(reason) => r is Err && r->Err_0@ == reason,
        },
{
    match decode_hex(text) {
        Ok(bytes) => Ok(bytes),
        Err(e) => Err(joined(what, e.message().as_str())),
    }
}

/// Whether a text is hexadecimal.
pub open spec fn is_hex(text: Seq<char>) -> bool {
    hex_decoded(encode_utf8(text)) is Ok
}

/// Whether a text is the hexadecimal spelling of bytes.
pub open spec fn spells(text: Seq<char>, bytes: Seq<u8>) -> bool {
    hex_decoded(encode_utf8(text)) matches Ok(decoded) && decoded == bytes
}

/// Validates what was read from a target file.
pub fn load_one(contents: &Result<ProxyTargetRaw, FileError>) -> (r: Result<ProxyTarget, String>)
    ensures
        match loaded(*contents) {
            Ok(target) => r is Ok && r->Ok_0@ == target,
            Err(reason) => r is Err && r->Err_0@ == reason,
        },
        r is Ok <==> *contents is Ok && is_hex((*contents)->Ok_0.pcrs.pcr0@) && is_hex(
            (*contents)->Ok_0.pcrs.pcr1@,
        ) && is_hex((*contents)->Ok_0.pcrs.pcr2@),
        r matches Ok(target) ==> {
            let raw = (*contents)->Ok_0;
            &&& target.enclave_id == raw.enclave_id
            &&& target.endpoint@ == raw.endpoint@
            &&& target.debug_mode == raw.debug_mode
            &&& spells(raw.pcrs.pcr0@, target.pcrs.pcr0@)
            &&& spells(raw.pcrs.pcr1@, target.pcrs.pcr1@)
            &&& spells(raw.pcrs.pcr2@, target.pcrs.pcr2@)
        },
        *contents matches Err(FileError::Read(text)) ==> r->Err_0@ == "read: "@ + text@,
        *contents matches Err(FileError::Parse(text)) ==> r->Err_0@ == "parse: "@ + text@,
        *contents matches Ok(raw) ==> {
            let a = hex_decoded(encode_utf8(raw.pcrs.pcr0@));
            let b = hex_decoded(encode_utf8(raw.pcrs.pcr1@));
            let c = hex_decoded(encode_utf8(raw.pcrs.pcr2@));
            &&& a is Err ==> r->Err_0@ == "pcr0 hex: "@ + a->Err_0.text()
            &&& a is Ok && b is Err ==> r->Err_0@ == "pcr1 hex: "@ + b->Err_0.text()
            &&& a is Ok && b is Ok && c is Err ==> r->Err_0@ == "pcr2 hex: "@ + c->Err_0.text()
        },
{
    let raw = match contents {
        Ok(raw) => raw,
        Err(FileError::Read(text)) => {
            return Err(joined("read: ", text.as_str()));
        },
        Err(FileError::Parse(text)) => {
            return Err(joined("parse: ", text.as_str()));
        },
    };
    let pcr0 = match load_pcr(raw.pcrs.pcr0.as_str(), "pcr0 hex: ") {
        Ok(bytes) => bytes,
        Err(reason) => {
            return Err(reason);
        },
    };
    let pcr1 = match load_pcr(raw.pcrs.pcr1.as_str(), "pcr1 hex: ") {
        Ok(bytes) => bytes,
        Err(reason) => {
            return Err(reason);
        },
    };
    let pcr2 = match load_pcr(raw.pcrs.pcr2.as_str(), "pcr2 hex: ") {
        Ok(bytes) => bytes,
        Err(reason) => {
            return Err(reason);
        },
    };
    Ok(
        ProxyTarget {
            enclave_id: raw.enclave_id,
            endpoint: raw.endpoint.clone(),
            pcrs: Pcrs { pcr0, pcr1, pcr2 },
            debug_mode: raw.debug_mode,
        },
    )
}

/// The position of the last `.` in a file name, or `-1` where there is none.
pub open spec fn last_dot(name: Seq<char>) -> int
    decreases name.len(),
{
    if name.len() == 0 {
        -1
    } else if name.last() == '.' {
        name.len() - 1
    } else {
        last_dot(name.drop_last())
    }
}

/// A file name without its extension. A leading `.` starts no extension.
pub open spec fn file_stem(name: Seq<char>) -> Seq<char> {
    if last_dot(name) <= 0 {
        name
    } else {
        name.take(last_dot(name))
    }
}

/// The extension of a file name: what follows its last `.`, unless that one leads the name.
pub open spec fn file_extension(name: Seq<char>) -> Option<Seq<char>> {
    if last_dot(name) <= 0 {
        None
    } else {
        Some(name.skip(last_dot(name) + 1))
    }
}

/// Whether a file of that name holds a target.
pub open spec fn names_target(name: Seq<char>) -> bool {
    file_extension(name) == Some("json"@)
}

/// The enclave that a file of that name belongs to.
pub open spec fn file_owner(name: Seq<char>) -> Option<EnclaveId> {
    id_of(file_stem(name))
}

proof fn lemma_last_dot_at(name: Seq<char>, i: int)
    requires
        -1 <= i < name.len(),
        i >= 0 ==> name[i] == '.',
        forall|k: int| i < k < name.len() ==> #[trigger] name[k] != '.',
    ensures
        last_dot(name) == i,
    decreases name.len(),
{
    if name.len() > 0 && i < name.len() - 1 {
        assert(name.last() == name[name.len() - 1]);
        lemma_last_dot_at(name.drop_last(), i);
    }
}

/// The position that the extension's `.` has in a file name with one.
fn find_extension(chars: &Vec<char>) -> (r: Option<usize>)
    ensures
        r is Some <==> last_dot(chars@) > 0,
        r is Some ==> r->0 == last_dot(chars@) && r->0 < chars.len(),
{
    let mut i: usize = chars.len();
    while i > 0 && chars[i - 1] != '.'
        invariant
            i <= chars.len(),
            forall|k: int| i <= k < chars.len() ==> #[trigger] chars@[k] != '.',
        decreases i,
    {
        i = i - 1;
    }
    proof {
        lemma_last_dot_at(chars@, i - 1);
    }
    if i > 1 {
        Some(i - 1)
    } else {
        None
    }
}

/// Whether a file of that name holds a target: its extension is `json`.
pub fn is_target_file(name: &str) -> (r: bool)
    ensures
        r == names_target(name@),
{
    let chars = chars_of(name);
    match find_extension(&chars) {
        None => false,
        Some(dot) => {
            let extension = name.substring_char(dot + 1, chars.len());
            assert(extension@ =~= name@.skip(dot + 1));
            same_text(extension, "json")
        },
    }
}

/// The enclave that a file of that name belongs to: the name without its extension spells the
/// id.
pub fn owner_of_file(name: &str) -> (r: Option<EnclaveId>)
    ensures
        r == file_owner(name@),
{
    let chars = chars_of(name);
    match find_extension(&chars) {
        None => EnclaveId::parse(name),
        Some(dot) => {
            let stem = name.substring_char(0, dot);
            assert(stem@ =~= name@.take(dot as int));
            EnclaveId::parse(stem)
        },
    }
}

/// Why a lookup gives no target.
#[derive(Debug)]
pub enum RegistryError {
    /// No file of that enclave is known.
    ConfigNotFound(EnclaveId),
    /// The enclave's file is malformed.
    BadConfig { id: EnclaveId, reason: String },
}

/// A lookup error with its text as a sequence.
#[verifier::ext_equal]
pub enum RegistryErrorView {
    ConfigNotFound(EnclaveId),
    BadConfig { id: EnclaveId, reason: Seq<char> },
}

impl View for RegistryError {
    type V = RegistryErrorView;

    open spec fn view(&self) -> RegistryErrorView {
        match *self {
            RegistryError::ConfigNotFound(id) => RegistryErrorView::ConfigNotFound(id),
            RegistryError::BadConfig { id, reason } => RegistryErrorView::BadConfig {
                id,
                reason: reason@,
            },
        }
    }
}

impl RegistryErrorView {
    /// The text of the error.
    pub open spec fn text(self) -> Seq<char> {
        match self {
            RegistryErrorView::ConfigNotFound(id) => "no proxy target registered for enclave "@
                + id_text(id),
            RegistryErrorView::BadConfig { id, reason } => "bad config for enclave "@ + id_text(id)
                + ": "@ + reason,
        }
    }
}

impl RegistryError {
    /// The text of the error.
    pub fn message(&self) -> (r: String)
        ensures
            r@ == self@.text(),
            *self matches RegistryError::ConfigNotFound(id) ==> r@
                == "no proxy target registered for enclave "@ + id_text(id),
            *self matches RegistryError::BadConfig { id, reason } ==> r@
                == "bad config for enclave "@ + id_text(id) + ": "@ + reason@,
    {
        match self {
            RegistryError::ConfigNotFound(id) => joined(
                "no proxy target registered for enclave ",
                id.text().as_str(),
            ),
            RegistryError::BadConfig { id, reason } => {
                let mut r = joined("bad config for enclave ", id.text().as_str());
                r.append(": ");
                r.append(reason.as_str());
                r
            },
        }
    }
}

/// A target and the name of the file that it came from.
#[derive(Debug)]
pub struct FileTarget {
    pub name: String,
    pub target: ProxyTarget,
}

/// A target and its file's name as sequences.
#[verifier::ext_equal]
pub struct FileTargetView {
    pub name: Seq<char>,
    pub target: ProxyTargetView,
}

impl View for FileTarget {
    type V = FileTargetView;

    open spec fn view(&self) -> FileTargetView {
        FileTargetView { name: self.name@, target: self.target@ }
    }
}

/// The targets of one enclave as views.
pub open spec fn supplied(stack: Seq<FileTarget>) -> Seq<FileTargetView> {
    stack.map_values(|entry: FileTarget| entry@)
}

/// The targets of a directory, by enclave id, and what is wrong with malformed files. An enclave
/// has one entry for each file that holds a target for it, the one that was loaded last at the
/// end.
pub struct Registry {
    pub targets: HashMap<u128, Vec<FileTarget>>,
    pub failures: HashMap<u128, String>,
    pub dir: PathBuf,
}

/// A registry as two maps.
#[verifier::ext_equal]
pub struct RegistryView {
    pub targets: Map<u128, Seq<FileTargetView>>,
    pub failures: Map<u128, Seq<char>>,
    pub dir: PathBuf,
}

impl View for Registry {
    type V = RegistryView;

    open spec fn view(&self) -> RegistryView {
        RegistryView {
            targets: self.targets@.map_values(|stack: Vec<FileTarget>| supplied(stack@)),
            failures: self.failures@.map_values(|reason: String| reason@),
            dir: self.dir,
        }
    }
}

/// The targets that files hold for an enclave, the one that was loaded last at the end.
pub open spec fn stack_of(
    targets: Map<u128, Seq<FileTargetView>>,
    id: EnclaveId,
) -> Seq<FileTargetView> {
    if targets.contains_key(id.bits) {
        targets[id.bits]
    } else {
        Seq::empty()
    }
}

/// What a registry gives for an enclave: the target that was loaded last of those its files
/// hold; without one, what is wrong with its file; otherwise that nothing is known of it.
pub open spec fn looked_up(v: RegistryView, id: EnclaveId) -> Result<
    ProxyTargetView,
    RegistryErrorView,
> {
    if stack_of(v.targets, id).len() > 0 {
        Ok(stack_of(v.targets, id).last().target)
    } else if v.failures.contains_key(id.bits) {
        Err(RegistryErrorView::BadConfig { id, reason: v.failures[id.bits] })
    } else {
        Err(RegistryErrorView::ConfigNotFound(id))
    }
}

/// The entries of an enclave but for those from the file of that name.
pub open spec fn without_file(stack: Seq<FileTargetView>, name: Seq<char>) -> Seq<FileTargetView>
    decreases stack.len(),
{
    if stack.len() == 0 {
        Seq::empty()
    } else {
        let before = without_file(stack.drop_last(), name);
        if stack.last().name == name {
            before
        } else {
            before.push(stack.last())
        }
    }
}

/// All entries but for those from the file of that name.
pub open spec fn without_supplier(
    targets: Map<u128, Seq<FileTargetView>>,
    name: Seq<char>,
) -> Map<u128, Seq<FileTargetView>> {
    Map::new(
        |id: u128| targets.contains_key(id) && without_file(targets[id], name).len() > 0,
        |id: u128| without_file(targets[id], name),
    )
}

/// The enclave that a failure of a file of that name is reported to: the owner of a target file.
pub open spec fn failure_owner(name: Seq<char>) -> Option<EnclaveId> {
    if names_target(name) {
        file_owner(name)
    } else {
        None
    }
}

/// Failures without that of an enclave.
pub open spec fn cleared(
    failures: Map<u128, Seq<char>>,
    id: Option<EnclaveId>,
) -> Map<u128, Seq<char>> {
    match id {
        Some(id) => failures.remove(id.bits),
        None => failures,
    }
}

/// A registry after the file of that name was read. A target goes to the end of its enclave's
/// entries, in place of an earlier one from the same file, and no failure of the file's owner
/// is left. A file that is malformed is remembered under its owner; what it held before stays.
/// A file that could not be read changes nothing.
pub open spec fn reloaded(
    v: RegistryView,
    name: Seq<char>,
    contents: Result<ProxyTargetRaw, FileError>,
) -> RegistryView {
    match loaded(contents) {
        Ok(target) => RegistryView {
            targets: v.targets.insert(
                target.enclave_id.bits,
                without_file(stack_of(v.targets, target.enclave_id), name).push(
                    FileTargetView { name, target },
                ),
            ),
            failures: cleared(v.failures, failure_owner(name)),
            ..v
        },
        Err(reason) => match failure_owner(name) {
            Some(id) => if contents matches Err(FileError::Read(_)) {
                v
            } else {
                RegistryView { failures: v.failures.insert(id.bits, reason), ..v }
            },
            None => v,
        },
    }
}

/// A registry after the file of that name is gone: the enclave that the name spells has no
/// target any more, and all that the file supplied is dropped, under whatever id. So is the
/// failure of a target file.
pub open spec fn removed(v: RegistryView, name: Seq<char>) -> RegistryView {
    RegistryView {
        targets: match file_owner(name) {
            Some(id) => without_supplier(v.targets, name).remove(id.bits),
            None => without_supplier(v.targets, name),
        },
        failures: cleared(v.failures, failure_owner(name)),
        ..v
    }
}

/// The enclave that a failure of a file of that name is reported to.
fn owner_of_failure(name: &str) -> (r: Option<EnclaveId>)
    ensures
        r == failure_owner(name@),
{
    if is_target_file(name) {
        owner_of_file(name)
    } else {
        None
    }
}

/// Drops the entries from the file of that name.
fn drop_file(stack: &mut Vec<FileTarget>, name: &str)
    ensures
        supplied(final(stack)@) == without_file(supplied(old(stack)@), name@),
{
    let ghost all = supplied(stack@);
    let ghost mut seen: int = 0;
    let mut i: usize = 0;
    assert(all.take(0) =~= Seq::empty());
    assert(without_file(all.take(0), name@) + all.skip(0) =~= all);
    while i < stack.len()
        invariant
            i <= stack.len(),
            0 <= seen <= all.len(),
            i == without_file(all.take(seen), name@).len(),
            stack.len() - i == all.len() - seen,
            supplied(stack@) == without_file(all.take(seen), name@) + all.skip(seen),
        decreases stack.len() - i,
    {
        let ghost kept = without_file(all.take(seen), name@);
        let ghost rest = all.skip(seen);
        let ghost before = stack@;
        proof {
            assert(supplied(before)[i as int] == rest[0]);
            assert(all.take(seen + 1).drop_last() =~= all.take(seen));
            assert(all.take(seen + 1).last() == all[seen]);
        }
        if same_text(stack[i].name.as_str(), name) {
            stack.remove(i);
            assert(supplied(stack@) =~= supplied(before).remove(i as int));
            assert(supplied(stack@) =~= kept + all.skip(seen + 1));
        } else {
            assert(kept.push(rest[0]) + all.skip(seen + 1) =~= kept + rest);
            i = i + 1;
        }
        proof {
            seen = seen + 1;
        }
    }
    assert(all.take(seen) =~= all);
    assert(without_file(all, name@) + all.skip(seen) =~= without_file(all, name@));
}

/// The ids that a map has entries for.
fn known_ids(targets: &HashMap<u128, Vec<FileTarget>>) -> (r: Vec<u128>)
    ensures
        r@.to_set() == targets@.dom(),
        r@.no_duplicates(),
{
    broadcast use vstd::std_specs::hash::group_hash_axioms;

    let keys = targets.keys();
    let ghost all = keys.remaining().unref();
    let mut r: Vec<u128> = Vec::new();
    for id in it: keys
        invariant
            it.seq().unref() == all,
            r@ == all.take(it.index()),
    {
        r.push(*id);
        assert(all.take(it.index() + 1) =~= all.take(it.index()).push(*id));
    }
    assert(all.take(all.len() as int) =~= all);
    assert(all.to_set() == targets@.dom());
    assert(all.no_duplicates());
    r
}

/// What was read from the file of a name.
#[derive(Debug)]
pub struct FileRead {
    pub name: String,
    pub contents: Result<ProxyTargetRaw, FileError>,
}

/// A registry after several files were read, in order.
pub open spec fn reloaded_all(v: RegistryView, files: Seq<FileRead>) -> RegistryView
    decreases files.len(),
{
    if files.len() == 0 {
        v
    } else {
        reloaded(reloaded_all(v, files.drop_last()), files.last().name@, files.last().contents)
    }
}

/// Whether a result says what came of reading a file: the id that was loaded, or the reason why
/// nothing was.
pub open spec fn tells_load(
    r: Result<EnclaveId, String>,
    contents: Result<ProxyTargetRaw, FileError>,
) -> bool {
    match loaded(contents) {
        Ok(target) => r == Ok::<EnclaveId, String>(target.enclave_id),
        Err(reason) => r is Err && r->Err_0@ == reason,
    }
}

/// Whether an id is answered for as the removal of a file asks.
spec fn is_dropped(
    new: Map<u128, Seq<FileTargetView>>,
    old_targets: Map<u128, Seq<FileTargetView>>,
    name: Seq<char>,
    id: u128,
) -> bool {
    let wanted = without_supplier(old_targets, name);
    &&& new.contains_key(id) == wanted.contains_key(id)
    &&& new.contains_key(id) ==> new[id] == wanted[id]
}

impl Registry {
    /// An empty registry for a directory.
    pub fn new(dir: PathBuf) -> (r: Registry)
        ensures
            r@ == (RegistryView { targets: Map::empty(), failures: Map::empty(), dir }),
            r.targets@ == Map::<u128, Vec<FileTarget>>::empty(),
            r.failures@ == Map::<u128, String>::empty(),
            r.dir == dir,
    {
        let r = Registry { targets: HashMap::new(), failures: HashMap::new(), dir };
        assert(r@.targets =~= Map::empty());
        assert(r@.failures =~= Map::empty());
        r
    }

    /// The directory that the registry is for.
    pub fn dir(&self) -> (r: &PathBuf)
        ensures
            *r == self@.dir,
            *r == self.dir,
    {
        &self.dir
    }

    /// Looks up the target of an enclave.
    pub fn get(&self, id: EnclaveId) -> (r: Result<ProxyTarget, RegistryError>)
        ensures
            match looked_up(self@, id) {
                Ok(target) => r is Ok && r->Ok_0@ == target,
                Err(e) => r is Err && r->Err_0@ == e,
            },
            r is Ok <==> self.targets@.contains_key(id.bits) && self.targets@[id.bits]@.len() > 0,
            r matches Ok(target) ==> {
                let served = self.targets@[id.bits]@.last().target;
                &&& target.enclave_id == served.enclave_id
                &&& target.endpoint@ == served.endpoint@
                &&& target.pcrs.pcr0@ == served.pcrs.pcr0@
                &&& target.pcrs.pcr1@ == served.pcrs.pcr1@
                &&& target.pcrs.pcr2@ == served.pcrs.pcr2@
                &&& target.debug_mode == served.debug_mode
            },
            r matches Err(RegistryError::ConfigNotFound(asked)) ==> asked == id
                && !self.failures@.contains_key(id.bits),
            r matches Err(RegistryError::BadConfig { id: asked, reason }) ==> asked == id
                && self.failures@.contains_key(id.bits) && reason@ == self.failures@[id.bits]@,
    {
        broadcast use vstd::std_specs::hash::group_hash_axioms;

        if let Some(stack) = self.targets.get(&id.bits) {
            assert(stack_of(self@.targets, id) == supplied(stack@));
            if stack.len() > 0 {
                return Ok(stack[stack.len() - 1].target.clone());
            }
        }
        match self.failures.get(&id.bits) {
            Some(reason) => Err(RegistryError::BadConfig { id, reason: reason.clone() }),
            None => Err(RegistryError::ConfigNotFound(id)),
        }
    }

    /// Forgets the failure of a target file.
    fn clear_failure(&mut self, name: &str)
        ensures
            final(self)@ == (RegistryView {
                failures: cleared(old(self)@.failures, failure_owner(name@)),
                ..old(self)@
            }),
    {
        broadcast use vstd::std_specs::hash::group_hash_axioms;

        if let Some(id) = owner_of_failure(name) {
            self.failures.remove(&id.bits);
            assert(self@.failures =~= old(self)@.failures.remove(id.bits));
            assert(self@.targets =~= old(self)@.targets);
        }
    }

    /// Takes what was read from the file of that name. Gives the id that was loaded, or the
    /// reason why nothing was.
    pub fn reload_file(
        &mut self,
        name: &str,
        contents: &Result<ProxyTargetRaw, FileError>,
    ) -> (r: Result<EnclaveId, String>)
        ensures
            final(self)@ == reloaded(old(self)@, name@, *contents),
            tells_load(r, *contents),
            r is Ok <==> loaded(*contents) is Ok,
            r matches Ok(id) ==> *contents is Ok && (*contents)->Ok_0.enclave_id == id,
            r matches Err(reason) ==> reason@ == loaded(*contents)->Err_0,
            r matches Ok(id) ==> {
                let raw = (*contents)->Ok_0;
                let found = looked_up(final(self)@, id);
                &&& found is Ok
                &&& found->Ok_0.enclave_id == id
                &&& found->Ok_0.endpoint == raw.endpoint@
                &&& found->Ok_0.debug_mode == raw.debug_mode
                &&& spells(raw.pcrs.pcr0@, found->Ok_0.pcrs.pcr0)
                &&& spells(raw.pcrs.pcr1@, found->Ok_0.pcrs.pcr1)
                &&& spells(raw.pcrs.pcr2@, found->Ok_0.pcrs.pcr2)
            },
            *contents matches Err(FileError::Read(_)) ==> final(self)@ == old(self)@,
            final(self).dir == old(self).dir,
    {
        broadcast use vstd::std_specs::hash::group_hash_axioms;

        match load_one(contents) {
            Ok(target) => {
                let id = target.enclave_id;
                let mut stack: Vec<FileTarget> = match self.targets.remove(&id.bits) {
                    Some(stack) => stack,
                    None => Vec::new(),
                };
                proof {
                    assert(supplied(stack@) =~= stack_of(old(self)@.targets, id));
                }
                drop_file(&mut stack, name);
                let ghost kept = stack@;
                let entry = FileTarget { name: name.to_string(), target };
                stack.push(entry);
                proof {
                    assert(supplied(stack@) =~= supplied(kept).push(entry@));
                }
                let ghost entries = supplied(stack@);
                self.targets.insert(id.bits, stack);
                assert(self@.targets =~= old(self)@.targets.insert(id.bits, entries));
                assert(self@.failures =~= old(self)@.failures);
                self.clear_failure(name);
                Ok(id)
            },
            Err(reason) => {
                let unread = match contents {
                    Err(FileError::Read(_)) => true,
                    _ => false,
                };
                if let Some(owner) = owner_of_failure(name) {
                    if !unread {
                        self.failures.insert(owner.bits, reason.clone());
                        assert(self@.failures =~= old(self)@.failures.insert(owner.bits, reason@));
                        assert(self@.targets =~= old(self)@.targets);
                    }
                }
                Err(reason)
            },
        }
    }

    /// Takes what was read from several files, in order.
    pub fn reload_files(&mut self, files: &Vec<FileRead>) -> (r: Vec<Result<EnclaveId, String>>)
        ensures
            final(self)@ == reloaded_all(old(self)@, files@),
            r.len() == files.len(),
            forall|i: int|
                0 <= i < files.len() ==> tells_load(#[trigger] r@[i], files@[i].contents),
            forall|i: int|
                0 <= i < files.len() ==> ((#[trigger] r@[i]) is Ok <==> loaded(
                    files@[i].contents,
                ) is Ok),
            forall|i: int|
                0 <= i < files.len() && (#[trigger] r@[i]) is Ok ==> files@[i].contents is Ok
                    && files@[i].contents->Ok_0.enclave_id == r@[i]->Ok_0,
    {
        let mut r: Vec<Result<EnclaveId, String>> = Vec::new();
        let mut i: usize = 0;
        assert(files@.take(0) =~= Seq::empty());
        while i < files.len()
            invariant
                i <= files.len(),
                r.len() == i,
                self@ == reloaded_all(old(self)@, files@.take(i as int)),
                forall|k: int| 0 <= k < i ==> tells_load(#[trigger] r@[k], files@[k].contents),
            decreases files.len() - i,
        {
            proof {
                assert(files@.take(i + 1).drop_last() =~= files@.take(i as int));
                assert(files@.take(i + 1).last() == files@[i as int]);
            }
            let result = self.reload_file(files[i].name.as_str(), &files[i].contents);
            r.push(result);
            i = i + 1;
        }
        assert(files@.take(files.len() as int) =~= files@);
        r
    }

    /// Takes note that the file of that name is gone: drops the target of the enclave that the
    /// name spells, and all that the file supplied.
    pub fn remove_for_path(&mut self, name: &str)
        ensures
            final(self)@ == removed(old(self)@, name@),
            file_owner(name@) matches Some(id) ==> looked_up(final(self)@, id) is Err,
            final(self).dir == old(self).dir,
    {
        broadcast use vstd::std_specs::hash::group_hash_axioms;

        let ids = known_ids(&self.targets);
        let ghost before = self@.targets;
        assert(before.dom() =~= ids@.to_set());
        let mut i: usize = 0;
        while i < ids.len()
            invariant
                i <= ids.len(),
                ids@.no_duplicates(),
                before == old(self)@.targets,
                before.dom() == ids@.to_set(),
                self.failures == old(self).failures,
                self.dir == old(self).dir,
                forall|k: int|
                    0 <= k < i ==> is_dropped(self@.targets, before, name@, #[trigger] ids@[k]),
                forall|k: int|
                    i <= k < ids.len() ==> self@.targets.contains_key(#[trigger] ids@[k])
                        && self@.targets[ids@[k]] == before[ids@[k]],
                forall|id: u128|
                    #![trigger self@.targets.contains_key(id)]
                    self@.targets.contains_key(id) ==> before.contains_key(id),
            decreases ids.len() - i,
        {
            broadcast use vstd::std_specs::hash::group_hash_axioms;

            let id: u128 = ids[i];
            let ghost prior = self@.targets;
            assert(ids@.to_set().contains(id));
            if let Some(mut stack) = self.targets.remove(&id) {
                proof {
                    assert(supplied(stack@) == before[id]);
                }
                drop_file(&mut stack, name);
                let ghost kept = supplied(stack@);
                if stack.len() > 0 {
                    self.targets.insert(id, stack);
                    assert(self@.targets =~= prior.insert(id, kept));
                } else {
                    assert(self@.targets =~= prior.remove(id));
                }
            }
            i = i + 1;
        }
        proof {
            let wanted = without_supplier(before, name@);
            assert forall|id: u128| is_dropped(self@.targets, before, name@, id) by {
                if before.contains_key(id) {
                    assert(ids@.to_set().contains(id));
                    let k = choose|k: int| 0 <= k < ids.len() && ids@[k] == id;
                    assert(is_dropped(self@.targets, before, name@, ids@[k]));
                }
            }
            assert(self@.targets =~= wanted) by {
                assert forall|id: u128| #[trigger]
                    self@.targets.contains_key(id) == wanted.contains_key(id) by {
                    assert(is_dropped(self@.targets, before, name@, id));
                }
                assert forall|id: u128| #[trigger]
                    self@.targets.contains_key(id) implies self@.targets[id] == wanted[id] by {
                    assert(is_dropped(self@.targets, before, name@, id));
                }
            }
        }
        if let Some(id) = owner_of_file(name) {
            let ghost kept = self@.targets;
            self.targets.remove(&id.bits);
            assert(self@.targets =~= kept.remove(id.bits));
        }
        assert(self@.failures =~= old(self)@.failures);
        self.clear_failure(name);
    }
}

/// The leftmost label of a host name, without a port.
pub open spec fn leftmost_label(host: Seq<char>) -> Seq<char> {
    before(before(host, '.'), ':')
}

/// Reads an enclave id out of a host name: the leftmost label, everything before the first
/// `.`, without a port, has to spell an id.
pub fn enclave_id_from_host(host: &str) -> (r: Option<EnclaveId>)
    ensures
        r == id_of(leftmost_label(host@)),
{
    let label = prefix_before(host, '.');
    let label = prefix_before(label, ':');
    EnclaveId::parse(label)
}

/// A host name that starts with the text of an id, and then ends or goes on with a `.` or a
/// `:`, gives that id, whatever follows.
pub proof fn law_host_names_its_enclave(id: EnclaveId, rest: Seq<char>)
    requires
        rest.len() == 0 || rest[0] == '.' || rest[0] == ':',
    ensures
        id_of(leftmost_label(id_text(id) + rest)) == Some(id),
{
    let text = id_text(id);
    let host = text + rest;
    lemma_id_text_is_label(id);
    law_id_text_round_trip(id);
    assert forall|k: int| 0 <= k < 36 implies #[trigger] host[k] != '.' && host[k] != ':' by {
        assert(host[k] == text[k]);
    }
    lemma_index_or_len_is_first(host, '.');
    let cut = before(host, '.');
    assert(cut.len() >= 36);
    assert forall|k: int| 0 <= k < 36 implies #[trigger] cut[k] != ':' by {
        assert(cut[k] == host[k]);
    }
    if cut.len() > 36 {
        assert(cut[36] == host[36]);
    }
    lemma_index_or_len_at(cut, ':', 36);
    assert(leftmost_label(host) =~= text);
}

/// What a file-system event says of its files.
#[derive(Clone, Copy, Debug, PartialEq, Eq, Structural)]
pub enum FileEventKind {
    Create,
    Modify,
    Remove,
    Other,
}

/// What the watch on the directory delivered.
#[derive(Debug)]
pub enum Notice {
    /// Something happened to the files of these names.
    Event { kind: FileEventKind, names: Vec<String> },
    /// The watch failed: anything may have happened.
    Failed,
}

/// What is left to do after a notice.
#[derive(Debug)]
pub enum Work {
    /// Load the files whose names stand at these positions.
    Load(Vec<usize>),
    /// Scan the whole directory again.
    Rescan,
}

/// File names as sequences.
pub open spec fn names_of(names: Seq<String>) -> Seq<Seq<char>> {
    names.map_values(|name: String| name@)
}

/// The positions of the names that hold targets, in order.
pub open spec fn target_positions(names: Seq<Seq<char>>) -> Seq<int>
    decreases names.len(),
{
    if names.len() == 0 {
        Seq::empty()
    } else {
        let before = target_positions(names.drop_last());
        if names_target(names.last()) {
            before.push(names.len() - 1)
        } else {
            before
        }
    }
}

/// A registry after the files of these names are gone.
pub open spec fn removed_all(v: RegistryView, names: Seq<Seq<char>>) -> RegistryView
    decreases names.len(),
{
    if names.len() == 0 {
        v
    } else {
        removed(removed_all(v, names.drop_last()), names.last())
    }
}

/// Positions as mathematical integers.
pub open spec fn positions(s: Seq<usize>) -> Seq<int> {
    s.map_values(|i: usize| i as int)
}

/// Picks the target files out of a directory listing: the positions of their names, in order.
pub fn files_to_load(names: &Vec<String>) -> (r: Vec<usize>)
    ensures
        positions(r@) == target_positions(names_of(names@)),
        forall|i: usize|
            #![trigger r@.contains(i)]
            r@.contains(i) <==> i < names@.len() && names_target(names@[i as int]@),
        forall|a: int, b: int| 0 <= a < b < r@.len() ==> #[trigger] r@[a] < #[trigger] r@[b],
{
    let ghost all = names_of(names@);
    let mut r: Vec<usize> = Vec::new();
    let mut i: usize = 0;
    assert(all.take(0) =~= Seq::<Seq<char>>::empty());
    assert(positions(r@) =~= Seq::<int>::empty());
    while i < names.len()
        invariant
            i <= names.len(),
            all == names_of(names@),
            positions(r@) == target_positions(all.take(i as int)),
        decreases names.len() - i,
    {
        proof {
            assert(all.take(i + 1).drop_last() =~= all.take(i as int));
            assert(all.take(i + 1).last() == names@[i as int]@);
        }
        if is_target_file(names[i].as_str()) {
            let ghost before = r@;
            r.push(i);
            assert(positions(r@) =~= positions(before).push(i as int));
        }
        i = i + 1;
    }
    assert(all.take(names.len() as int) =~= all);
    proof {
        lemma_picked_positions(r@, names@);
    }
    r
}

proof fn lemma_picked_positions(picked: Seq<usize>, names: Seq<String>)
    requires
        positions(picked) == target_positions(names_of(names)),
        names.len() <= usize::MAX,
    ensures
        forall|i: usize|
            #![trigger picked.contains(i)]
            picked.contains(i) <==> i < names.len() && names_target(names[i as int]@),
        forall|a: int, b: int|
            0 <= a < b < picked.len() ==> #[trigger] picked[a] < #[trigger] picked[b],
{
    let all = names_of(names);
    let wanted = target_positions(all);
    law_target_positions_are_exact(all);
    assert(wanted.len() == picked.len());
    assert forall|k: int| 0 <= k < picked.len() implies #[trigger] picked[k] == wanted[k] by {
        assert(positions(picked)[k] == picked[k]);
    }
    assert forall|i: usize| #![trigger picked.contains(i)] picked.contains(i) implies i
        < names.len() && names_target(names[i as int]@) by {
        let k = choose|k: int| 0 <= k < picked.len() && picked[k] == i;
        assert(wanted[k] == i);
        assert(wanted.contains(i as int));
        assert(all[i as int] == names[i as int]@);
    }
    assert forall|i: usize|
        #![trigger picked.contains(i)]
        i < names.len() && names_target(names[i as int]@) implies picked.contains(i) by {
        assert(all[i as int] == names[i as int]@);
        assert(wanted.contains(i as int));
        let k = choose|k: int| 0 <= k < wanted.len() && wanted[k] == i as int;
        assert(picked[k] == i);
    }
    assert forall|a: int, b: int| 0 <= a < b < picked.len() implies #[trigger] picked[a]
        < #[trigger] picked[b] by {
        assert(wanted[a] < wanted[b]);
    }
}

impl Registry {
    /// Takes a file-system event. Created and modified target files are to be loaded: gives the
    /// positions of their names. What is known of removed files is dropped. Any other event is
    /// ignored.
    pub fn handle_event(&mut self, kind: FileEventKind, names: &Vec<String>) -> (r: Vec<usize>)
        ensures
            final(self)@ == if kind == FileEventKind::Remove {
                removed_all(old(self)@, names_of(names@))
            } else {
                old(self)@
            },
            positions(r@) == if kind == FileEventKind::Create || kind == FileEventKind::Modify {
                target_positions(names_of(names@))
            } else {
                Seq::empty()
            },
            kind == FileEventKind::Create || kind == FileEventKind::Modify ==> forall|i: usize|
                #![trigger r@.contains(i)]
                r@.contains(i) <==> i < names@.len() && names_target(names@[i as int]@),
            kind == FileEventKind::Remove || kind == FileEventKind::Other ==> r@.len() == 0,
            kind != FileEventKind::Remove ==> final(self)@ == old(self)@,
            forall|id: EnclaveId, k: int|
                #![trigger looked_up(final(self)@, id), names@[k]]
                kind == FileEventKind::Remove && 0 <= k < names@.len() && file_owner(names@[k]@)
                    == Some(id) ==> looked_up(final(self)@, id) is Err,
    {
        let none: Vec<usize> = Vec::new();
        assert(positions(none@) =~= Seq::<int>::empty());
        match kind {
            FileEventKind::Create => files_to_load(names),
            FileEventKind::Modify => files_to_load(names),
            FileEventKind::Other => none,
            FileEventKind::Remove => {
                let ghost all = names_of(names@);
                let mut i: usize = 0;
                assert(all.take(0) =~= Seq::<Seq<char>>::empty());
                while i < names.len()
                    invariant
                        i <= names.len(),
                        all == names_of(names@),
                        self@ == removed_all(old(self)@, all.take(i as int)),
                    decreases names.len() - i,
                {
                    self.remove_for_path(names[i].as_str());
                    proof {
                        assert(all.take(i + 1).drop_last() =~= all.take(i as int));
                        assert(all.take(i + 1).last() == names@[i as int]@);
                    }
                    i = i + 1;
                }
                assert(all.take(names.len() as int) =~= all);
                proof {
                    assert forall|id: EnclaveId, k: int|
                        #![trigger looked_up(self@, id), names@[k]]
                        0 <= k < names@.len() && file_owner(names@[k]@) == Some(
                            id,
                        ) implies looked_up(self@, id) is Err by {
                        assert(all[k] == names@[k]@);
                        lemma_removed_names_are_gone(old(self)@, all, names@[k]@, id);
                    }
                }
                none
            },
        }
    }

    /// Takes what the watch delivered: an event as `handle_event` says; after a failure the
    /// whole directory has to be scanned again.
    pub fn handle_notice(&mut self, notice: &Notice) -> (r: Work)
        ensures
            final(self)@ == noticed(old(self)@, *notice),
            match *notice {
                Notice::Failed => r is Rescan,
                Notice::Event { kind, names } => r is Load && positions(r->Load_0@) == if kind
                    == FileEventKind::Create || kind == FileEventKind::Modify {
                    target_positions(names_of(names@))
                } else {
                    Seq::empty()
                },
            },
    {
        match notice {
            Notice::Failed => Work::Rescan,
            Notice::Event { kind, names } => Work::Load(self.handle_event(*kind, names)),
        }
    }
}

/// A position is picked exactly where it is that of a name that holds a target, and only once.
pub proof fn law_target_positions_are_exact(names: Seq<Seq<char>>)
    ensures
        forall|i: int|
            #![trigger target_positions(names).contains(i)]
            target_positions(names).contains(i) <==> 0 <= i < names.len() && names_target(names[i]),
        forall|a: int, b: int|
            0 <= a < b < target_positions(names).len() ==> #[trigger] target_positions(names)[a]
                < #[trigger] target_positions(names)[b],
    decreases names.len(),
{
    let picked = target_positions(names);
    if names.len() > 0 {
        let front = names.drop_last();
        let before = target_positions(front);
        law_target_positions_are_exact(front);
        assert forall|i: int| #![trigger picked.contains(i)] picked.contains(i) implies 0 <= i
            < names.len() && names_target(names[i]) by {
            let k = choose|k: int| 0 <= k < picked.len() && picked[k] == i;
            if k < before.len() {
                assert(before[k] == i);
                assert(before.contains(i));
            }
        }
        assert forall|i: int|
            #![trigger picked.contains(i)]
            0 <= i < names.len() && names_target(names[i]) implies picked.contains(i) by {
            if i == names.len() - 1 {
                assert(picked[before.len() as int] == i);
            } else {
                assert(front[i] == names[i]);
                assert(before.contains(i));
                let k = choose|k: int| 0 <= k < before.len() && before[k] == i;
                assert(picked[k] == i);
            }
        }
        assert forall|a: int, b: int| 0 <= a < b < picked.len() implies #[trigger] picked[a]
            < #[trigger] picked[b] by {
            assert(picked[a] == before[a]);
            assert(before.contains(before[a]));
            if b < before.len() {
                assert(picked[b] == before[b]);
            }
        }
    }
}

proof fn lemma_without_file(stack: Seq<FileTargetView>, name: Seq<char>)
    ensures
        forall|i: int|
            0 <= i < without_file(stack, name).len() ==> (#[trigger] without_file(
                stack,
                name,
            )[i]).name != name && stack.contains(without_file(stack, name)[i]),
        without_file(without_file(stack, name), name) == without_file(stack, name),
        (forall|i: int| 0 <= i < stack.len() ==> #[trigger] stack[i].name == name)
            ==> without_file(stack, name).len() == 0,
        (forall|i: int| 0 <= i < stack.len() ==> #[trigger] stack[i].name != name)
            ==> without_file(stack, name) == stack,
    decreases stack.len(),
{
    if stack.len() > 0 {
        let front = stack.drop_last();
        let before = without_file(front, name);
        let kept = without_file(stack, name);
        lemma_without_file(front, name);
        assert forall|i: int| 0 <= i < kept.len() implies #[trigger] kept[i].name != name
            && stack.contains(kept[i]) by {
            if i < before.len() {
                assert(kept[i] == before[i]);
                assert(front.contains(before[i]));
                let k = choose|k: int| 0 <= k < front.len() && front[k] == before[i];
                assert(stack[k] == before[i]);
            } else {
                assert(kept[i] == stack[stack.len() - 1]);
            }
        }
        assert(stack.last() == stack[stack.len() - 1]);
        if stack.last().name != name {
            assert(kept.drop_last() =~= before);
        }
        if forall|i: int| 0 <= i < stack.len() ==> #[trigger] stack[i].name == name {
            assert forall|i: int| 0 <= i < front.len() implies #[trigger] front[i].name == name by {
                assert(front[i] == stack[i]);
            }
        }
        if forall|i: int| 0 <= i < stack.len() ==> #[trigger] stack[i].name != name {
            assert forall|i: int| 0 <= i < front.len() implies #[trigger] front[i].name != name by {
                assert(front[i] == stack[i]);
            }
            assert(kept =~= stack);
        }
    }
}

proof fn lemma_without_file_push(
    stack: Seq<FileTargetView>,
    entry: FileTargetView,
    name: Seq<char>,
)
    ensures
        without_file(stack.push(entry), name) == if entry.name == name {
            without_file(stack, name)
        } else {
            without_file(stack, name).push(entry)
        },
{
    assert(stack.push(entry).drop_last() =~= stack);
}

/// A target that was loaded is served under its id. Any other enclave that does not own the
/// file is answered as before.
pub proof fn law_loaded_target_is_served(
    v: RegistryView,
    name: Seq<char>,
    contents: Result<ProxyTargetRaw, FileError>,
    other: EnclaveId,
)
    requires
        loaded(contents) is Ok,
    ensures
        ({
            let target = loaded(contents)->Ok_0;
            let next = reloaded(v, name, contents);
            &&& looked_up(next, target.enclave_id) == Ok::<ProxyTargetView, RegistryErrorView>(
                target,
            )
            &&& other != target.enclave_id && file_owner(name) != Some(other) ==> looked_up(
                next,
                other,
            ) == looked_up(v, other)
        }),
{
}

/// A target file that is malformed is reported to its owner, unless the owner has a target: that
/// one is still served. One that could not be read changes nothing. Any other enclave is
/// answered as before.
pub proof fn law_failed_load_is_reported(
    v: RegistryView,
    name: Seq<char>,
    contents: Result<ProxyTargetRaw, FileError>,
    id: EnclaveId,
    other: EnclaveId,
)
    requires
        loaded(contents) is Err,
        failure_owner(name) == Some(id),
    ensures
        ({
            let next = reloaded(v, name, contents);
            let unread = contents matches Err(FileError::Read(_));
            &&& unread ==> next == v
            &&& looked_up(next, id) == if unread || looked_up(v, id) is Ok {
                looked_up(v, id)
            } else {
                Err(RegistryErrorView::BadConfig { id, reason: loaded(contents)->Err_0 })
            }
            &&& other != id ==> looked_up(next, other) == looked_up(v, other)
        }),
{
}

/// Whether all that is known of an enclave came from the file of that name.
pub open spec fn known_from_alone(v: RegistryView, id: EnclaveId, name: Seq<char>) -> bool {
    &&& forall|i: int|
        0 <= i < stack_of(v.targets, id).len() ==> #[trigger] stack_of(v.targets, id)[i].name
            == name
    &&& v.failures.contains_key(id.bits) ==> failure_owner(name) == Some(id)
}

/// Whether the file of that name supplied nothing that is known of an enclave.
pub open spec fn not_known_from(v: RegistryView, id: EnclaveId, name: Seq<char>) -> bool {
    &&& forall|i: int|
        0 <= i < stack_of(v.targets, id).len() ==> #[trigger] stack_of(v.targets, id)[i].name
            != name
    &&& file_owner(name) != Some(id)
}

/// Once `<id>.json` is gone, nothing is known of the enclave with that id, whatever supplied it.
/// Once any file is gone, whatever its name, the enclave that the name spells has no target, an
/// enclave that was known from the file alone is not known any more, one that neither the name
/// nor the file spoke of is answered as before, and nothing that is still served came from
/// that file.
pub proof fn law_removed_file_is_forgotten(v: RegistryView, name: Seq<char>, id: EnclaveId)
    ensures
        names_target(name) && file_owner(name) == Some(id) || known_from_alone(v, id, name)
            ==> looked_up(removed(v, name), id) == Err::<ProxyTargetView, RegistryErrorView>(
            RegistryErrorView::ConfigNotFound(id),
        ),
        file_owner(name) == Some(id) ==> looked_up(removed(v, name), id) is Err,
        not_known_from(v, id, name) ==> looked_up(removed(v, name), id) == looked_up(v, id),
        forall|i: int|
            0 <= i < stack_of(removed(v, name).targets, id).len() ==> #[trigger] stack_of(
                removed(v, name).targets,
                id,
            )[i].name != name,
{
    lemma_without_file(stack_of(v.targets, id), name);
}

/// Removing a file undoes its load, whatever its name and whatever it held: what is left is what
/// removing it beforehand would have left.
pub proof fn law_removal_undoes_load(
    v: RegistryView,
    name: Seq<char>,
    contents: Result<ProxyTargetRaw, FileError>,
)
    ensures
        removed(reloaded(v, name, contents), name) == removed(v, name),
{
    let after = removed(reloaded(v, name, contents), name);
    let before = removed(v, name);
    if let Ok(target) = loaded(contents) {
        let id = target.enclave_id;
        let stack = stack_of(v.targets, id);
        lemma_without_file(stack, name);
        lemma_without_file_push(
            without_file(stack, name),
            FileTargetView { name, target },
            name,
        );
    }
    assert(after.targets =~= before.targets);
    assert(after.failures =~= before.failures);
}

/// Loading a file a second time leaves only what the second reading says, where both readings
/// are for the same enclave.
pub proof fn law_last_load_counts(
    v: RegistryView,
    name: Seq<char>,
    first: Result<ProxyTargetRaw, FileError>,
    second: Result<ProxyTargetRaw, FileError>,
)
    requires
        loaded(second) is Ok,
        loaded(first) is Ok ==> loaded(first)->Ok_0.enclave_id == loaded(second)->Ok_0.enclave_id,
    ensures
        reloaded(reloaded(v, name, first), name, second) == reloaded(v, name, second),
{
    let twice = reloaded(reloaded(v, name, first), name, second);
    let once = reloaded(v, name, second);
    if let Ok(target) = loaded(first) {
        let stack = stack_of(v.targets, target.enclave_id);
        lemma_without_file(stack, name);
        lemma_without_file_push(
            without_file(stack, name),
            FileTargetView { name, target },
            name,
        );
    }
    assert(twice.targets =~= once.targets);
    assert(twice.failures =~= once.failures);
}

/// The file `<uuid>.json` holds a target and belongs to the enclave with that id.
pub proof fn law_enclave_owns_its_file(id: EnclaveId)
    ensures
        names_target(id_text(id) + ".json"@),
        file_owner(id_text(id) + ".json"@) == Some(id),
{
    reveal_strlit(".json");
    reveal_strlit("json");
    let text = id_text(id);
    let name = text + ".json"@;
    lemma_id_text_is_label(id);
    law_id_text_round_trip(id);
    lemma_last_dot_at(name, 36);
    assert(name.take(36) =~= text);
    assert(name.skip(37) =~= "json"@);
}

/// Whether a file loads a target for an enclave.
pub open spec fn loads_for(file: FileRead, id: EnclaveId) -> bool {
    loaded(file.contents) is Ok && loaded(file.contents)->Ok_0.enclave_id == id
}

/// Whether the target that an enclave is served is the one of that entry.
pub open spec fn serves(v: RegistryView, id: EnclaveId, entry: FileTargetView) -> bool {
    stack_of(v.targets, id).len() > 0 && stack_of(v.targets, id).last() == entry
}

proof fn lemma_scan_keeps(v: RegistryView, files: Seq<FileRead>, id: EnclaveId)
    requires
        forall|k: int| 0 <= k < files.len() ==> !loads_for(#[trigger] files[k], id),
    ensures
        stack_of(reloaded_all(v, files).targets, id) == stack_of(v.targets, id),
    decreases files.len(),
{
    if files.len() > 0 {
        let front = files.drop_last();
        assert forall|k: int| 0 <= k < front.len() implies !loads_for(#[trigger] front[k], id) by {
            assert(front[k] == files[k]);
        }
        lemma_scan_keeps(v, front, id);
        assert(!loads_for(files[files.len() - 1], id));
    }
}

/// After files were read in order, as in a scan of the directory, every one that could be loaded
/// is served under its id, unless a later one holds a target for the same enclave: the last one
/// is served.
pub proof fn law_scan_serves_every_file(v: RegistryView, files: Seq<FileRead>, i: int)
    requires
        0 <= i < files.len(),
        loaded(files[i].contents) is Ok,
    ensures
        ({
            let target = loaded(files[i].contents)->Ok_0;
            let next = reloaded_all(v, files);
            &&& looked_up(next, target.enclave_id) is Ok
            &&& (forall|k: int|
                i < k < files.len() ==> !loads_for(#[trigger] files[k], target.enclave_id))
                ==> serves(next, target.enclave_id, FileTargetView { name: files[i].name@, target })
                && looked_up(next, target.enclave_id) == Ok::<ProxyTargetView, RegistryErrorView>(
                target,
            )
        }),
    decreases files.len(),
{
    let target = loaded(files[i].contents)->Ok_0;
    let front = files.drop_last();
    let last = files.len() - 1;
    if i < last {
        assert(front[i] == files[i]);
        law_scan_serves_every_file(v, front, i);
        if forall|k: int| i < k < files.len() ==> !loads_for(
            #[trigger] files[k],
            target.enclave_id,
        ) {
            assert(!loads_for(files[last], target.enclave_id));
            assert forall|k: int| i < k < front.len() implies !loads_for(
                #[trigger] front[k],
                target.enclave_id,
            ) by {
                assert(front[k] == files[k]);
            }
        }
    }
}

/// A notice of the watch, what the directory listed when it came, and what was then read.
pub struct Occurrence {
    pub notice: Notice,
    pub listing: Seq<Seq<char>>,
    pub files: Seq<FileRead>,
}

/// The names that hold targets, in order.
pub open spec fn target_names(names: Seq<Seq<char>>) -> Seq<Seq<char>> {
    target_positions(names).map_values(|i: int| names[i])
}

/// The names of the files that a notice asks to be read: created and modified targets; after a
/// failure every target that the directory lists.
pub open spec fn asked_names(o: Occurrence) -> Seq<Seq<char>> {
    match o.notice {
        Notice::Failed => target_names(o.listing),
        Notice::Event { kind, names } => if kind == FileEventKind::Create || kind
            == FileEventKind::Modify {
            target_names(names_of(names@))
        } else {
            Seq::empty()
        },
    }
}

/// The names of files that were read.
pub open spec fn read_names(files: Seq<FileRead>) -> Seq<Seq<char>> {
    files.map_values(|file: FileRead| file.name@)
}

/// Whether the files that a notice asks for were read, in order.
pub open spec fn is_read(o: Occurrence) -> bool {
    read_names(o.files) == asked_names(o)
}

/// A registry after a notice was taken.
pub open spec fn noticed(v: RegistryView, notice: Notice) -> RegistryView {
    match notice {
        Notice::Failed => v,
        Notice::Event { kind, names } => if kind == FileEventKind::Remove {
            removed_all(v, names_of(names@))
        } else {
            v
        },
    }
}

/// A registry after a notice was taken and the files it asked for were loaded.
pub open spec fn followed_one(v: RegistryView, o: Occurrence) -> RegistryView {
    reloaded_all(noticed(v, o.notice), o.files)
}

/// A registry after a run of notices, each taken in turn.
pub open spec fn followed(v: RegistryView, run: Seq<Occurrence>) -> RegistryView
    decreases run.len(),
{
    if run.len() == 0 {
        v
    } else {
        followed_one(followed(v, run.drop_last()), run.last())
    }
}

/// Notices are followed one by one, in the order in which they came: a run does what its first
/// part does, and then its second. A failure among them, as a part of its own, does not keep
/// later ones from being followed.
pub proof fn law_notices_are_followed_in_order(
    v: RegistryView,
    first: Seq<Occurrence>,
    second: Seq<Occurrence>,
)
    ensures
        followed(v, first + second) == followed(followed(v, first), second),
    decreases second.len(),
{
    if second.len() == 0 {
        assert(first + second =~= first);
    } else {
        law_notices_are_followed_in_order(v, first, second.drop_last());
        assert((first + second).drop_last() =~= first + second.drop_last());
        assert((first + second).last() == second.last());
    }
}

/// After the watch failed and the directory was scanned again, every target file that it lists
/// has been read, and each that could be loaded is served under its id, unless a later file of
/// the listing holds a target for the same enclave: the last one is served.
pub proof fn law_rescan_serves_listed_files(v: RegistryView, o: Occurrence)
    requires
        o.notice is Failed,
        is_read(o),
    ensures
        forall|p: int|
            0 <= p < o.listing.len() && names_target(#[trigger] o.listing[p]) ==> read_names(
                o.files,
            ).contains(o.listing[p]),
        forall|k: int|
            0 <= k < o.files.len() && loaded(#[trigger] o.files[k].contents) is Ok ==> {
                let target = loaded(o.files[k].contents)->Ok_0;
                let found = looked_up(followed_one(v, o), target.enclave_id);
                &&& found is Ok
                &&& (forall|j: int|
                    k < j < o.files.len() ==> !loads_for(#[trigger] o.files[j], target.enclave_id))
                    ==> found == Ok::<ProxyTargetView, RegistryErrorView>(target)
            },
{
    law_target_positions_are_exact(o.listing);
    let picked = target_positions(o.listing);
    assert forall|p: int|
        0 <= p < o.listing.len() && names_target(#[trigger] o.listing[p]) implies read_names(
        o.files,
    ).contains(o.listing[p]) by {
        assert(picked.contains(p));
        let k = choose|k: int| 0 <= k < picked.len() && picked[k] == p;
        assert(target_names(o.listing)[k] == o.listing[p]);
        assert(read_names(o.files)[k] == o.listing[p]);
    }
    assert forall|k: int|
        0 <= k < o.files.len() && loaded(#[trigger] o.files[k].contents) is Ok implies {
        let target = loaded(o.files[k].contents)->Ok_0;
        let found = looked_up(followed_one(v, o), target.enclave_id);
        &&& found is Ok
        &&& (forall|j: int|
            k < j < o.files.len() ==> !loads_for(#[trigger] o.files[j], target.enclave_id))
            ==> found == Ok::<ProxyTargetView, RegistryErrorView>(target)
    } by {
        law_scan_serves_every_file(v, o.files, k);
    }
}

/// Whether what happened leaves an entry where it is: no target for that enclave was loaded, and
/// neither the entry's file nor one whose name spells the enclave was removed.
pub open spec fn leaves_alone(o: Occurrence, id: EnclaveId, name: Seq<char>) -> bool {
    &&& forall|k: int| 0 <= k < o.files.len() ==> !loads_for(#[trigger] o.files[k], id)
    &&& o.notice matches Notice::Event { kind, names } ==> kind == FileEventKind::Remove
        ==> !names_of(names@).contains(name) && none_owned_by(names_of(names@), id)
}

/// Whether none of these names spells the enclave.
pub open spec fn none_owned_by(names: Seq<Seq<char>>, id: EnclaveId) -> bool {
    forall|k: int| 0 <= k < names.len() ==> file_owner(#[trigger] names[k]) != Some(id)
}

proof fn lemma_removal_keeps_entry(
    v: RegistryView,
    names: Seq<Seq<char>>,
    id: EnclaveId,
    entry: FileTargetView,
)
    requires
        serves(v, id, entry),
        !names.contains(entry.name),
        none_owned_by(names, id),
    ensures
        serves(removed_all(v, names), id, entry),
    decreases names.len(),
{
    if names.len() > 0 {
        let front = names.drop_last();
        assert forall|k: int| 0 <= k < front.len() implies front[k] != entry.name by {
            assert(names.contains(names[k]));
        }
        assert forall|k: int| 0 <= k < front.len() implies file_owner(#[trigger] front[k]) != Some(
            id,
        ) by {
            assert(front[k] == names[k]);
        }
        lemma_removal_keeps_entry(v, front, id, entry);
        assert(names.contains(names[names.len() - 1]));
        assert(file_owner(names[names.len() - 1]) != Some(id));
        let before = removed_all(v, front);
        let stack = stack_of(before.targets, id);
        let kept = without_file(stack, names.last());
        assert(kept.last() == entry && kept.len() > 0);
    }
}

/// A target that is served stays served, from the same file, through every run of notices that
/// neither removes that file, or one whose name spells the enclave, nor loads another target
/// for the same enclave.
pub proof fn law_served_target_stays(
    v: RegistryView,
    run: Seq<Occurrence>,
    id: EnclaveId,
    entry: FileTargetView,
)
    requires
        serves(v, id, entry),
        forall|i: int| 0 <= i < run.len() ==> leaves_alone(#[trigger] run[i], id, entry.name),
    ensures
        serves(followed(v, run), id, entry),
        looked_up(followed(v, run), id) == Ok::<ProxyTargetView, RegistryErrorView>(entry.target),
    decreases run.len(),
{
    if run.len() > 0 {
        let front = run.drop_last();
        assert forall|i: int| 0 <= i < front.len() implies leaves_alone(
            #[trigger] front[i],
            id,
            entry.name,
        ) by {
            assert(front[i] == run[i]);
        }
        law_served_target_stays(v, front, id, entry);
        let o = run.last();
        assert(leaves_alone(run[run.len() - 1], id, entry.name));
        let before = followed(v, front);
        if let Notice::Event { kind, names } = o.notice {
            if kind == FileEventKind::Remove {
                lemma_removal_keeps_entry(before, names_of(names@), id, entry);
            }
        }
        lemma_scan_keeps(noticed(before, o.notice), o.files, id);
    }
}

/// A file that is written while the directory is watched shows in the next lookup: after the
/// notice of it was followed, its target is served, whatever came before, unless the same
/// notice loaded another one for the same enclave behind it.
pub proof fn law_write_shows(v: RegistryView, run: Seq<Occurrence>, o: Occurrence, k: int)
    requires
        0 <= k < o.files.len(),
        loaded(o.files[k].contents) is Ok,
        forall|j: int|
            k < j < o.files.len() ==> !loads_for(
                #[trigger] o.files[j],
                loaded(o.files[k].contents)->Ok_0.enclave_id,
            ),
    ensures
        ({
            let target = loaded(o.files[k].contents)->Ok_0;
            let next = followed(v, run.push(o));
            &&& serves(
                next,
                target.enclave_id,
                FileTargetView { name: o.files[k].name@, target },
            )
            &&& looked_up(next, target.enclave_id) == Ok::<ProxyTargetView, RegistryErrorView>(
                target,
            )
        }),
{
    assert(run.push(o).drop_last() =~= run);
    law_scan_serves_every_file(noticed(followed(v, run), o.notice), o.files, k);
}

proof fn lemma_removed_names_are_gone(
    v: RegistryView,
    names: Seq<Seq<char>>,
    name: Seq<char>,
    id: EnclaveId,
)
    requires
        names.contains(name),
    ensures
        forall|i: int|
            0 <= i < stack_of(removed_all(v, names).targets, id).len() ==> #[trigger] stack_of(
                removed_all(v, names).targets,
                id,
            )[i].name != name,
        file_owner(name) == Some(id) ==> stack_of(removed_all(v, names).targets, id).len() == 0,
        failure_owner(name) == Some(id) ==> !removed_all(v, names).failures.contains_key(id.bits),
    decreases names.len(),
{
    let front = names.drop_last();
    let before = removed_all(v, front);
    let stack = stack_of(before.targets, id);
    lemma_without_file(stack, names.last());
    law_removed_file_is_forgotten(before, names.last(), id);
    if names.last() != name {
        let k = choose|k: int| 0 <= k < names.len() && names[k] == name;
        assert(front[k] == name);
        lemma_removed_names_are_gone(v, front, name, id);
        let kept = stack_of(removed_all(v, names).targets, id);
        assert forall|i: int| 0 <= i < kept.len() implies #[trigger] kept[i].name != name by {
            assert(kept == without_file(stack, names.last()));
            assert(stack.contains(kept[i]));
            let m = choose|m: int| 0 <= m < stack.len() && stack[m] == kept[i];
            assert(stack[m].name != name);
        }
    }
}

/// A file that is deleted while the directory is watched shows in the next lookup: after the
/// notice of it was followed, nothing that came from it is served, to any enclave, and the
/// enclave that its name spells has no target. After the deletion of `<id>.json`, nothing is
/// known of that enclave.
pub proof fn law_delete_shows(
    v: RegistryView,
    run: Seq<Occurrence>,
    o: Occurrence,
    name: Seq<char>,
    id: EnclaveId,
)
    requires
        is_read(o),
        o.notice matches Notice::Event { kind, names } && kind == FileEventKind::Remove
            && names_of(names@).contains(name),
    ensures
        forall|i: int|
            0 <= i < stack_of(followed(v, run.push(o)).targets, id).len() ==> #[trigger] stack_of(
                followed(v, run.push(o)).targets,
                id,
            )[i].name != name,
        file_owner(name) == Some(id) ==> looked_up(followed(v, run.push(o)), id) is Err,
        names_target(name) && file_owner(name) == Some(id) ==> looked_up(
            followed(v, run.push(o)),
            id,
        ) == Err::<ProxyTargetView, RegistryErrorView>(RegistryErrorView::ConfigNotFound(id)),
{
    assert(run.push(o).drop_last() =~= run);
    assert(o.files.len() == 0) by {
        assert(read_names(o.files).len() == 0);
    }
    if let Notice::Event { kind, names } = o.notice {
        lemma_removed_names_are_gone(followed(v, run), names_of(names@), name, id);
    }
}

/// Whether every target stands under its own id.
pub open spec fn own_ids(v: RegistryView) -> bool {
    forall|id: u128, i: int|
        v.targets.contains_key(id) && 0 <= i < v.targets[id].len() ==> (
        #[trigger] v.targets[id][i]).target.enclave_id.bits == id
}

proof fn lemma_reload_keeps_ids(
    v: RegistryView,
    name: Seq<char>,
    contents: Result<ProxyTargetRaw, FileError>,
)
    requires
        own_ids(v),
    ensures
        own_ids(reloaded(v, name, contents)),
{
    if let Ok(target) = loaded(contents) {
        let next = reloaded(v, name, contents);
        let stack = stack_of(v.targets, target.enclave_id);
        lemma_without_file(stack, name);
        assert forall|id: u128, i: int|
            next.targets.contains_key(id) && 0 <= i < next.targets[id].len() implies (
        #[trigger] next.targets[id][i]).target.enclave_id.bits == id by {
            if id == target.enclave_id.bits {
                let kept = without_file(stack, name);
                if i < kept.len() {
                    assert(next.targets[id][i] == kept[i]);
                    assert(stack.contains(kept[i]));
                    let k = choose|k: int| 0 <= k < stack.len() && stack[k] == kept[i];
                    assert(v.targets[id][k].target.enclave_id.bits == id);
                }
            } else {
                assert(v.targets[id][i].target.enclave_id.bits == id);
            }
        }
    }
}

proof fn lemma_removal_keeps_ids(v: RegistryView, name: Seq<char>)
    requires
        own_ids(v),
    ensures
        own_ids(removed(v, name)),
{
    let next = removed(v, name);
    assert forall|id: u128, i: int|
        next.targets.contains_key(id) && 0 <= i < next.targets[id].len() implies (
    #[trigger] next.targets[id][i]).target.enclave_id.bits == id by {
        let stack = v.targets[id];
        lemma_without_file(stack, name);
        let kept = without_file(stack, name);
        assert(next.targets[id] == kept);
        assert(stack.contains(kept[i]));
        let k = choose|k: int| 0 <= k < stack.len() && stack[k] == kept[i];
        assert(v.targets[id][k].target.enclave_id.bits == id);
    }
}

proof fn lemma_reloads_keep_ids(v: RegistryView, files: Seq<FileRead>)
    requires
        own_ids(v),
    ensures
        own_ids(reloaded_all(v, files)),
    decreases files.len(),
{
    if files.len() > 0 {
        lemma_reloads_keep_ids(v, files.drop_last());
        lemma_reload_keeps_ids(
            reloaded_all(v, files.drop_last()),
            files.last().name@,
            files.last().contents,
        );
    }
}

proof fn lemma_removals_keep_ids(v: RegistryView, names: Seq<Seq<char>>)
    requires
        own_ids(v),
    ensures
        own_ids(removed_all(v, names)),
    decreases names.len(),
{
    if names.len() > 0 {
        lemma_removals_keep_ids(v, names.drop_last());
        lemma_removal_keeps_ids(removed_all(v, names.drop_last()), names.last());
    }
}

/// A target always stands under its own id: it does in an empty registry, every scan and every
/// run of notices keeps it so, and then a lookup gives a target of the enclave it was for.
pub proof fn law_targets_stand_under_own_id(
    v: RegistryView,
    scan: Seq<FileRead>,
    run: Seq<Occurrence>,
    id: EnclaveId,
)
    ensures
        v.targets == Map::<u128, Seq<FileTargetView>>::empty() ==> own_ids(v),
        own_ids(v) ==> own_ids(reloaded_all(v, scan)),
        own_ids(v) ==> own_ids(followed(v, run)),
        own_ids(v) && looked_up(v, id) is Ok ==> looked_up(v, id)->Ok_0.enclave_id == id,
    decreases run.len(),
{
    if own_ids(v) {
        lemma_reloads_keep_ids(v, scan);
        if looked_up(v, id) is Ok {
            let stack = v.targets[id.bits];
            assert(v.targets[id.bits][stack.len() - 1].target.enclave_id.bits == id.bits);
        }
        if run.len() > 0 {
            let o = run.last();
            law_targets_stand_under_own_id(v, scan, run.drop_last(), id);
            let before = followed(v, run.drop_last());
            if let Notice::Event { kind, names } = o.notice {
                lemma_removals_keep_ids(before, names_of(names@));
            }
            lemma_reloads_keep_ids(noticed(before, o.notice), o.files);
        }
    }
}

/// The views of a target and of its entry hold their fields, each under its own name.
pub proof fn law_target_views_keep_fields(target: ProxyTarget, entry: FileTarget)
    ensures
        target@.enclave_id == target.enclave_id,
        target@.endpoint == target.endpoint@,
        target@.pcrs.pcr0 == target.pcrs.pcr0@,
        target@.pcrs.pcr1 == target.pcrs.pcr1@,
        target@.pcrs.pcr2 == target.pcrs.pcr2@,
        target@.debug_mode == target.debug_mode,
        entry@.name == entry.name@,
        entry@.target == entry.target@,
{
}

/// The view of a registry holds, for the same ids, the views of the same entries in the same
/// order, and the same failures.
pub proof fn law_registry_view_keeps_entries(registry: Registry, id: u128)
    ensures
        registry@.targets.contains_key(id) <==> registry.targets@.contains_key(id),
        registry@.failures.contains_key(id) <==> registry.failures@.contains_key(id),
        registry@.dir == registry.dir,
        registry.failures@.contains_key(id) ==> registry@.failures[id]
            == registry.failures@[id]@,
        registry.targets@.contains_key(id) ==> {
            let view = registry@.targets[id];
            let stack = registry.targets@[id]@;
            &&& view.len() == stack.len()
            &&& forall|i: int| 0 <= i < stack.len() ==> #[trigger] view[i] == stack[i]@
        },
{
}

/// A target that was loaded keeps what its file says, field by field: its id, its endpoint and
/// its mode are the file's, and each measurement is what the file spells under the same name.
/// A file is loaded exactly where it was read and all three measurements are hexadecimal.
pub proof fn law_loaded_target_keeps_its_file(contents: Result<ProxyTargetRaw, FileError>)
    ensures
        loaded(contents) is Ok <==> contents is Ok && is_hex(contents->Ok_0.pcrs.pcr0@) && is_hex(
            contents->Ok_0.pcrs.pcr1@,
        ) && is_hex(contents->Ok_0.pcrs.pcr2@),
        loaded(contents) matches Ok(target) ==> {
            let raw = contents->Ok_0;
            &&& target.enclave_id == raw.enclave_id
            &&& target.endpoint == raw.endpoint@
            &&& target.debug_mode == raw.debug_mode
            &&& hex_decoded(encode_utf8(raw.pcrs.pcr0@)) == Ok::<Seq<u8>, HexError>(
                target.pcrs.pcr0,
            )
            &&& hex_decoded(encode_utf8(raw.pcrs.pcr1@)) == Ok::<Seq<u8>, HexError>(
                target.pcrs.pcr1,
            )
            &&& hex_decoded(encode_utf8(raw.pcrs.pcr2@)) == Ok::<Seq<u8>, HexError>(
                target.pcrs.pcr2,
            )
        },
{
}

/// The reason why a file holds no target tells what went wrong, and of the measurements the
/// first that is not hexadecimal.
pub proof fn law_load_error_names_its_cause(contents: Result<ProxyTargetRaw, FileError>)
    ensures
        contents matches Err(FileError::Read(text)) ==> loaded(contents)->Err_0 == "read: "@
            + text@,
        contents matches Err(FileError::Parse(text)) ==> loaded(contents)->Err_0 == "parse: "@
            + text@,
        contents matches Ok(raw) ==> {
            let a = hex_decoded(encode_utf8(raw.pcrs.pcr0@));
            let b = hex_decoded(encode_utf8(raw.pcrs.pcr1@));
            let c = hex_decoded(encode_utf8(raw.pcrs.pcr2@));
            &&& a is Err ==> loaded(contents)->Err_0 == "pcr0 hex: "@ + a->Err_0.text()
            &&& a is Ok && b is Err ==> loaded(contents)->Err_0 == "pcr1 hex: "@
                + b->Err_0.text()
            &&& a is Ok && b is Ok && c is Err ==> loaded(contents)->Err_0 == "pcr2 hex: "@
                + c->Err_0.text()
        },
{
}

/// Reading a file and then looking its enclave up gives back what the file says, field by
/// field, whatever the registry held before and whatever the file is called.
pub proof fn law_lookup_gives_back_the_file(
    v: RegistryView,
    name: Seq<char>,
    raw: ProxyTargetRaw,
)
    requires
        is_hex(raw.pcrs.pcr0@),
        is_hex(raw.pcrs.pcr1@),
        is_hex(raw.pcrs.pcr2@),
    ensures
        ({
            let found = looked_up(reloaded(v, name, Ok(raw)), raw.enclave_id);
            &&& found is Ok
            &&& found->Ok_0.enclave_id == raw.enclave_id
            &&& found->Ok_0.endpoint == raw.endpoint@
            &&& found->Ok_0.debug_mode == raw.debug_mode
            &&& spells(raw.pcrs.pcr0@, found->Ok_0.pcrs.pcr0)
            &&& spells(raw.pcrs.pcr1@, found->Ok_0.pcrs.pcr1)
            &&& spells(raw.pcrs.pcr2@, found->Ok_0.pcrs.pcr2)
        }),
{
}

/// A registry that no file was loaded into knows no enclave.
pub proof fn law_empty_registry_knows_nothing(v: RegistryView, id: EnclaveId)
    requires
        v.targets == Map::<u128, Seq<FileTargetView>>::empty(),
        v.failures == Map::<u128, Seq<char>>::empty(),
    ensures
        looked_up(v, id) == Err::<ProxyTargetView, RegistryErrorView>(
            RegistryErrorView::ConfigNotFound(id),
        ),
{
}

/// The text of a lookup error names the enclave, and the reason where there is one.
pub proof fn law_lookup_error_text(id: EnclaveId, reason: Seq<char>)
    ensures
        RegistryErrorView::ConfigNotFound(id).text() == "no proxy target registered for enclave "@
            + id_text(id),
        (RegistryErrorView::BadConfig { id, reason }).text() == "bad config for enclave "@
            + id_text(id) + ": "@ + reason,
{
}

/// The last `.` of a file name, unless it leads the name, parts the name: what follows it decides
/// whether the file holds a target, and what stands before it names the owner. A name without
/// such a `.` holds no target and names its owner as a whole.
pub proof fn law_file_name_parts(stem: Seq<char>, extension: Seq<char>)
    requires
        forall|i: int| 0 <= i < extension.len() ==> #[trigger] extension[i] != '.',
    ensures
        stem.len() > 0 ==> (names_target(stem + seq!['.'] + extension) <==> extension == "json"@),
        stem.len() > 0 ==> file_owner(stem + seq!['.'] + extension) == id_of(stem),
        !names_target(seq!['.'] + extension),
        file_owner(seq!['.'] + extension) == id_of(seq!['.'] + extension),
        !names_target(extension),
        file_owner(extension) == id_of(extension),
{
    let name = stem + seq!['.'] + extension;
    let n = stem.len() as int;
    assert forall|k: int| n < k < name.len() implies #[trigger] name[k] != '.' by {
        assert(name[k] == extension[k - n - 1]);
    }
    lemma_last_dot_at(name, n);
    assert(name.take(n) =~= stem);
    assert(name.skip(n + 1) =~= extension);
    let hidden = seq!['.'] + extension;
    assert forall|k: int| 0 < k < hidden.len() implies #[trigger] hidden[k] != '.' by {
        assert(hidden[k] == extension[k - 1]);
    }
    lemma_last_dot_at(hidden, 0);
    lemma_last_dot_at(extension, -1);
}

/// The leftmost label of a host decides, whatever follows it: a label without `.` and `:`, at the
/// end of the host or with a `.` or a `:` behind it, names the enclave that it spells, and no
/// other.
pub proof fn law_leftmost_label_decides(label: Seq<char>, rest: Seq<char>)
    requires
        forall|i: int| 0 <= i < label.len() ==> #[trigger] label[i] != '.' && label[i] != ':',
        rest.len() == 0 || rest[0] == '.' || rest[0] == ':',
    ensures
        leftmost_label(label + rest) == label,
{
    let host = label + rest;
    let n = label.len() as int;
    assert forall|k: int| 0 <= k < n implies #[trigger] host[k] != '.' && host[k] != ':' by {
        assert(host[k] == label[k]);
    }
    lemma_index_or_len_is_first(host, '.');
    let cut = before(host, '.');
    assert(cut.len() >= n);
    assert forall|k: int| 0 <= k < n implies #[trigger] cut[k] != ':' by {
        assert(cut[k] == host[k]);
    }
    if cut.len() > n {
        assert(cut[n] == host[n]);
    }
    lemma_index_or_len_at(cut, ':', n);
    assert(leftmost_label(host) =~= label);
}

proof fn lemma_others_survive(stack: Seq<FileTargetView>, name: Seq<char>, k: int)
    requires
        0 <= k < stack.len(),
        stack[k].name != name,
    ensures
        without_file(stack, name).contains(stack[k]),
        (forall|j: int| k < j < stack.len() ==> #[trigger] stack[j].name == name) ==> without_file(
            stack,
            name,
        ).len() > 0 && without_file(stack, name).last() == stack[k],
    decreases stack.len(),
{
    let last = stack.len() - 1;
    let front = stack.drop_last();
    let before = without_file(front, name);
    let kept = without_file(stack, name);
    if k == last {
        assert(kept.last() == stack[k]);
        assert(kept[kept.len() - 1] == stack[k]);
    } else {
        assert(front[k] == stack[k]);
        lemma_others_survive(front, name, k);
        let m = choose|m: int| 0 <= m < before.len() && before[m] == front[k];
        assert(kept[m] == stack[k]);
        if forall|j: int| k < j < stack.len() ==> #[trigger] stack[j].name == name {
            assert(stack[last].name == name);
            assert forall|j: int| k < j < front.len() implies #[trigger] front[j].name == name by {
                assert(front[j] == stack[j]);
            }
        }
    }
}

/// Removing a file takes nothing that other files hold: an enclave that the name does not spell
/// keeps every entry from another file, and is served the one of them that was loaded last.
pub proof fn law_other_files_survive_removal(
    v: RegistryView,
    name: Seq<char>,
    id: EnclaveId,
    k: int,
)
    requires
        file_owner(name) != Some(id),
        0 <= k < stack_of(v.targets, id).len(),
        stack_of(v.targets, id)[k].name != name,
    ensures
        stack_of(removed(v, name).targets, id).contains(stack_of(v.targets, id)[k]),
        (forall|j: int|
            k < j < stack_of(v.targets, id).len() ==> #[trigger] stack_of(v.targets, id)[j].name
                == name) ==> looked_up(removed(v, name), id) == Ok::<
            ProxyTargetView,
            RegistryErrorView,
        >(stack_of(v.targets, id)[k].target),
{
    let stack = stack_of(v.targets, id);
    lemma_others_survive(stack, name, k);
    let kept = without_file(stack, name);
    assert(kept.len() > 0) by {
        let m = choose|m: int| 0 <= m < kept.len() && kept[m] == stack[k];
        assert(0 <= m < kept.len());
    }
}

/// Loading a file takes nothing that other files hold: every entry from another file stays.
pub proof fn law_other_files_survive_load(
    v: RegistryView,
    name: Seq<char>,
    contents: Result<ProxyTargetRaw, FileError>,
    id: EnclaveId,
    k: int,
)
    requires
        0 <= k < stack_of(v.targets, id).len(),
        stack_of(v.targets, id)[k].name != name,
    ensures
        stack_of(reloaded(v, name, contents).targets, id).contains(stack_of(v.targets, id)[k]),
{
    let stack = stack_of(v.targets, id);
    lemma_others_survive(stack, name, k);
    let next = stack_of(reloaded(v, name, contents).targets, id);
    if let Ok(target) = loaded(contents) {
        if target.enclave_id == id {
            let kept = without_file(stack, name);
            let m = choose|m: int| 0 <= m < kept.len() && kept[m] == stack[k];
            assert(next[m] == stack[k]);
        } else {
            assert(target.enclave_id.bits != id.bits);
            assert(next[k] == stack[k]);
        }
    } else {
        assert(next[k] == stack[k]);
    }
}

/// Once a target file loads, its owner's failure is forgotten, whatever enclave the target is
/// for.
pub proof fn law_load_clears_failure(
    v: RegistryView,
    name: Seq<char>,
    contents: Result<ProxyTargetRaw, FileError>,
    id: EnclaveId,
)
    requires
        loaded(contents) is Ok,
        names_target(name),
        file_owner(name) == Some(id),
    ensures
        !(looked_up(reloaded(v, name, contents), id) matches Err(
            RegistryErrorView::BadConfig { .. },
        )),
{
}

/// A notice changes a registry only where files were removed, and then as the removal of each
/// file in turn does.
pub proof fn law_only_removals_change_at_once(v: RegistryView, notice: Notice, name: Seq<char>)
    ensures
        notice is Failed ==> noticed(v, notice) == v,
        notice matches Notice::Event { kind, names } ==> kind != FileEventKind::Remove ==> noticed(
            v,
            notice,
        ) == v,
        notice matches Notice::Event { kind, names } ==> kind == FileEventKind::Remove
            && names@.len() == 0 ==> noticed(v, notice) == v,
        notice matches Notice::Event { kind, names } ==> kind == FileEventKind::Remove
            && names@.len() > 0 ==> noticed(v, notice) == removed(
            removed_all(v, names_of(names@).drop_last()),
            names@.last()@,
        ),
        removed_all(v, Seq::empty()) == v,
        removed_all(v, seq![name]) == removed(v, name),
{
    reveal_with_fuel(removed_all, 2);
    assert(seq![name].drop_last() =~= Seq::<Seq<char>>::empty());
}

/// Files that are read one after the other change a registry one after the other.
pub proof fn law_reads_are_taken_in_turn(v: RegistryView, files: Seq<FileRead>)
    ensures
        files.len() == 0 ==> reloaded_all(v, files) == v,
        files.len() > 0 ==> reloaded_all(v, files) == reloaded(
            reloaded_all(v, files.drop_last()),
            files.last().name@,
            files.last().contents,
        ),
{
}

/// Names and positions are listed as they are.
pub proof fn law_listings_are_faithful(names: Seq<String>, picked: Seq<usize>, files: Seq<FileRead>)
    ensures
        names_of(names).len() == names.len(),
        forall|i: int| 0 <= i < names.len() ==> #[trigger] names_of(names)[i] == names[i]@,
        positions(picked).len() == picked.len(),
        forall|i: int| 0 <= i < picked.len() ==> #[trigger] positions(picked)[i] == picked[i],
        read_names(files).len() == files.len(),
        forall|i: int| 0 <= i < files.len() ==> #[trigger] read_names(files)[i] == files[i].name@,
{
}

/// The view of a lookup error tells the same enclave and the same reason.
pub proof fn law_lookup_error_view(e: RegistryError)
    ensures
        e matches RegistryError::ConfigNotFound(id) ==> e@ == RegistryErrorView::ConfigNotFound(id),
        e matches RegistryError::BadConfig { id, reason } ==> e@ == (RegistryErrorView::BadConfig {
            id,
            reason: reason@,
        }),
{
}

/// A file that ends in `.json` and is malformed is reported to the enclave that the rest of its
/// name spells, with what is wrong, as long as that enclave has no target. A malformed file of
/// any other name is reported to nobody.
pub proof fn law_malformed_file_is_reported(
    v: RegistryView,
    stem: Seq<char>,
    extension: Seq<char>,
    contents: Result<ProxyTargetRaw, FileError>,
    id: EnclaveId,
)
    requires
        stem.len() > 0,
        forall|i: int| 0 <= i < extension.len() ==> #[trigger] extension[i] != '.',
        loaded(contents) is Err,
        !(contents matches Err(FileError::Read(_))),
    ensures
        ({
            let next = reloaded(v, stem + seq!['.'] + extension, contents);
            &&& extension != "json"@ ==> next == v
            &&& extension == "json"@ && id_of(stem) == Some(id) ==> looked_up(next, id) == match
            looked_up(v, id) {
                Ok(target) => Ok::<ProxyTargetView, RegistryErrorView>(target),
                Err(_) => Err(
                    RegistryErrorView::BadConfig { id, reason: loaded(contents)->Err_0 },
                ),
            }
            &&& id_of(stem) != Some(id) ==> looked_up(next, id) == looked_up(v, id)
        }),
{
    law_file_name_parts(stem, extension);
}

/// A file that is not JSON of the right shape has the enclave that its name spells refused with
/// the parser's words; so has one with a measurement that is not hexadecimal, with the
/// measurement's name.
pub proof fn law_broken_file_tells_why(v: RegistryView, id: EnclaveId, text: String)
    requires
        looked_up(v, id) is Err,
    ensures
        looked_up(reloaded(v, id_text(id) + ".json"@, Err(FileError::Parse(text))), id) == Err::<
            ProxyTargetView,
            RegistryErrorView,
        >(RegistryErrorView::BadConfig { id, reason: "parse: "@ + text@ }),
        looked_up(reloaded(v, id_text(id) + ".json"@, Err(FileError::Read(text))), id) == looked_up(
            v,
            id,
        ),
{
    law_enclave_owns_its_file(id);
}

/// The directory of a registry never changes.
pub proof fn law_directory_stays(
    v: RegistryView,
    name: Seq<char>,
    contents: Result<ProxyTargetRaw, FileError>,
)
    ensures
        reloaded(v, name, contents).dir == v.dir,
        removed(v, name).dir == v.dir,
{
}

/// A lookup gives the last target of the enclave's entries; an enclave without one is told what is
/// wrong with its file, if anything is known to be, and else that it is not known.
pub proof fn law_lookup_prefers_targets(v: RegistryView, id: EnclaveId)
    ensures
        v.targets.contains_key(id.bits) && v.targets[id.bits].len() > 0 ==> looked_up(v, id)
            == Ok::<ProxyTargetView, RegistryErrorView>(v.targets[id.bits].last().target),
        !(v.targets.contains_key(id.bits) && v.targets[id.bits].len() > 0)
            && v.failures.contains_key(id.bits) ==> looked_up(v, id) == Err::<
            ProxyTargetView,
            RegistryErrorView,
        >(RegistryErrorView::BadConfig { id, reason: v.failures[id.bits] }),
        !(v.targets.contains_key(id.bits) && v.targets[id.bits].len() > 0)
            && !v.failures.contains_key(id.bits) ==> looked_up(v, id) == Err::<
            ProxyTargetView,
            RegistryErrorView,
        >(RegistryErrorView::ConfigNotFound(id)),
{
}

/// What is known to be wrong follows the target files alone: loading or removing one forgets what
/// was wrong with its owner's file and nothing else, and a file of another kind changes nothing
/// of it.
pub proof fn law_failures_follow_target_files(
    v: RegistryView,
    name: Seq<char>,
    raw: ProxyTargetRaw,
    id: EnclaveId,
)
    requires
        is_hex(raw.pcrs.pcr0@),
        is_hex(raw.pcrs.pcr1@),
        is_hex(raw.pcrs.pcr2@),
    ensures
        !names_target(name) || file_owner(name) is None ==> reloaded(v, name, Ok(raw)).failures
            == v.failures && removed(v, name).failures == v.failures,
        names_target(name) && file_owner(name) == Some(id) ==> reloaded(v, name, Ok(raw)).failures
            == v.failures.remove(id.bits) && removed(v, name).failures == v.failures.remove(
            id.bits,
        ),
{
}

} // verus!
