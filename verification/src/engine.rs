//! The extraction orchestrator: extractor configuration, the carve-or-
//! symlink rule, external-command planning, the exit-code policy, and the
//! final normalization that downgrades empty output and cleans up failed
//! extractions. All filesystem decisions are recorded in the sandbox
//! ledger; an unverified shell performs the matching process and disk
//! work.

use vstd::prelude::*;
use vstd::string::*;
use crate::numerals::{hex_upper_string, spec_hex_upper};
use crate::paths::spec_chrooted_path;
use crate::sandbox::{
    create_file_ok, keys_under, spec_anything_under, spec_symlink_target, NodeData, NodeKind,
    Sandbox,
};

verus! {

/// Error naming an extraction step that could not begin.
#[derive(Clone, Copy, Debug)]
pub struct ExtractionError;

/// How an extractor runs: an external command, a built-in decoder, or
/// nothing configured at all — invoking the latter is a caller bug.
#[derive(Clone, Debug)]
pub enum ExtractorType {
    External(String),
    Internal,
    Undefined,
}

/// Immutable configuration of one extractor.
#[derive(Clone, Debug)]
pub struct Extractor {
    pub utility: ExtractorType,
    pub extension: String,
    pub arguments: Vec<String>,
    pub exit_codes: Vec<i32>,
    pub do_not_recurse: bool,
}

/// Outcome record of one extraction. Raw results carry only `size` and
/// `success`; the orchestrator owns and overwrites the other fields.
#[derive(Clone, Debug)]
pub struct ExtractionResult {
    pub size: Option<usize>,
    pub success: bool,
    pub extractor: String,
    pub do_not_recurse: bool,
    pub output_directory: String,
}

/// One signature match, consumed read-only.
pub struct SignatureResult {
    pub name: String,
    pub offset: usize,
    pub size: usize,
    pub preferred_extractor: Option<Extractor>,
}

/// Everything an external invocation needs: the command and substituted
/// arguments, the working directory, the accepted exit codes, and the
/// carved input file that must be deleted once the process exits.
pub struct SpawnPlan {
    pub command: String,
    pub arguments: Vec<String>,
    pub working_directory: String,
    pub carved_file: String,
    pub exit_codes: Vec<i32>,
}

/// The command text of an extractor, empty unless it is external.
pub open spec fn command_of(u: ExtractorType) -> Seq<char> {
    match u {
        ExtractorType::External(c) => c@,
        _ => Seq::<char>::empty(),
    }
}

/// Two extractor definitions with the same configuration.
pub open spec fn same_extractor(a: Extractor, b: Extractor) -> bool {
    &&& (a.utility is External <==> b.utility is External)
    &&& (a.utility is Internal <==> b.utility is Internal)
    &&& command_of(a.utility) == command_of(b.utility)
    &&& a.extension@ == b.extension@
    &&& a.arguments@.map_values(|s: String| s@) == b.arguments@.map_values(|s: String| s@)
    &&& a.exit_codes@ == b.exit_codes@
    &&& a.do_not_recurse == b.do_not_recurse
}

/// Exit-code policy: 0 always succeeds, a code in the accepted set
/// succeeds, any other code — or termination by signal, which yields no
/// code — fails.
pub open spec fn spec_exit_success(code: Option<i32>, accepted: Seq<i32>) -> bool {
    match code {
        Option::Some(c) => c == 0 || accepted.contains(c),
        Option::None => false,
    }
}

pub fn exit_code_success(code: Option<i32>, accepted: &Vec<i32>) -> (r: bool)
    ensures
        r == spec_exit_success(code, accepted@),
{
    match code {
        Option::None => false,
        Option::Some(c) => {
            if c == 0 {
                return true;
            }
            let n = accepted.len();
            let mut i: usize = 0;
            while i < n
                invariant
                    code == Option::<i32>::Some(c),
                    n == accepted@.len(),
                    i <= n,
                    forall|t: int| 0 <= t < i ==> accepted@[t] != c,
                decreases n - i,
            {
                if accepted[i] == c {
                    proof {
                        assert(code == Option::<i32>::Some(c));
                        assert(accepted@[i as int] == c);
                        assert(accepted@.contains(c));
                        assert(spec_exit_success(code, accepted@));
                    }
                    return true;
                }
                i = i + 1;
            }
            false
        }
    }
}

/// The placeholder argument replaced by the carved file's path.
pub open spec fn placeholder_text() -> Seq<char> {
    seq!['%', 'e']
}

/// The literal placeholder, `%e`.
pub fn source_file_placeholder() -> (r: &'static str)
    ensures
        r@ == placeholder_text(),
{
    proof {
        reveal_strlit("%e");
        assert("%e"@ =~= placeholder_text());
    }
    "%e"
}

/// Replaces every placeholder argument with the carved file's path,
/// leaving all other arguments as they are.
pub fn substitute_arguments(arguments: &Vec<String>, carved_file: &String) -> (r: Vec<String>)
    ensures
        r@.len() == arguments@.len(),
        forall|i: int|
            0 <= i < arguments@.len() ==> (#[trigger] r@[i])@ == (if arguments@[i]@
                == placeholder_text() {
                carved_file@
            } else {
                arguments@[i]@
            }),
{
    let placeholder = String::from_str(source_file_placeholder());
    let n = arguments.len();
    let mut r: Vec<String> = Vec::new();
    let mut i: usize = 0;
    while i < n
        invariant
            n == arguments@.len(),
            i <= n,
            r@.len() == i,
            placeholder@ == placeholder_text(),
            forall|t: int|
                0 <= t < i ==> (#[trigger] r@[t])@ == (if arguments@[t]@ == placeholder_text() {
                    carved_file@
                } else {
                    arguments@[t]@
                }),
        decreases n - i,
    {
        if arguments[i].eq(&placeholder) {
            r.push(carved_file.clone());
        } else {
            r.push(arguments[i].clone());
        }
        i = i + 1;
    }
    r
}

/// `<file_path>.extracted/<offset in uppercase hex>`: the deterministic
/// output directory of one match.
pub open spec fn spec_output_directory(file_path: Seq<char>, offset: int) -> Seq<char> {
    file_path + seq!['.', 'e', 'x', 't', 'r', 'a', 'c', 't', 'e', 'd', '/']
        + spec_hex_upper(offset)
}

/// `<output_dir>/<name>_<offset in uppercase hex>.<extension>`: where the
/// matched byte range is carved for an external command.
pub open spec fn spec_carved_file_path(
    output_directory: Seq<char>,
    name: Seq<char>,
    offset: int,
    extension: Seq<char>,
) -> Seq<char> {
    output_directory + seq!['/'] + name + seq!['_'] + spec_hex_upper(offset) + seq!['.']
        + extension
}

pub fn carved_file_path(
    output_directory: &String,
    signature_name: &String,
    offset: usize,
    extension: &String,
) -> (r: String)
    ensures
        r@ == spec_carved_file_path(
            output_directory@, signature_name@, offset as int, extension@),
{
    let mut s = output_directory.clone();
    s.append("/");
    s.append(signature_name.as_str());
    s.append("_");
    let hx = hex_upper_string(offset);
    s.append(hx.as_str());
    s.append(".");
    s.append(extension.as_str());
    proof {
        reveal_strlit("/");
        reveal_strlit("_");
        reveal_strlit(".");
        assert(s@ =~= spec_carved_file_path(
            output_directory@, signature_name@, offset as int, extension@));
    }
    s
}

/// Creates (in the ledger) the per-offset output directory
/// `<file_path>.extracted/<hex offset>` and hands its path back; a path
/// already taken by something other than a directory is an error.
pub fn create_output_directory(fs: &mut Sandbox, file_path: &String, offset: usize) -> (r:
    Result<String, ExtractionError>)
    requires
        old(fs).wf(),
    ensures
        final(fs).wf(),
        ({
            let d = spec_output_directory(file_path@, offset as int);
            let k = spec_chrooted_path(d, seq!['/']);
            &&& (match r {
                Result::Ok(dir) => {
                    &&& dir@ == d
                    &&& (!old(fs)@.dom().contains(k) ==> final(fs)@ == old(fs)@.insert(
                        k,
                        NodeData {
                            kind: NodeKind::Directory,
                            content: Seq::<u8>::empty(),
                            link_target: Seq::<char>::empty(),
                            exec_bit: false,
                        },
                    ))
                    &&& (old(fs)@.dom().contains(k) ==> final(fs)@ == old(fs)@
                        && old(fs)@[k].kind == NodeKind::Directory)
                },
                Result::Err(_) => final(fs)@ == old(fs)@ && old(fs)@.dom().contains(k)
                    && old(fs)@[k].kind != NodeKind::Directory,
            })
        }),
{
    let mut dir = file_path.clone();
    dir.append(".extracted/");
    let hx = hex_upper_string(offset);
    dir.append(hx.as_str());
    proof {
        reveal_strlit(".extracted/");
        assert(dir@ =~= spec_output_directory(file_path@, offset as int));
    }
    let root = root_dir();
    let created = fs.create_directory(&dir, &root);
    if created {
        Result::Ok(dir)
    } else {
        Result::Err(ExtractionError)
    }
}

/// The filesystem root, the chroot used when carving: the output
/// directory path is already absolute and fully trusted paths never are.
fn root_dir() -> (r: String)
    ensures
        r@ == seq!['/'],
{
    proof {
        reveal_strlit("/");
        assert("/"@ =~= seq!['/']);
    }
    String::from_str("/")
}

/// The effective extractor of one match: a signature-specific preferred
/// extractor overrides the catalog default unconditionally.
pub fn effective_extractor<'a>(signature: &'a SignatureResult, default_extractor: &'a Extractor)
    -> (r: &'a Extractor)
    ensures
        match signature.preferred_extractor {
            Option::Some(p) => r == &p,
            Option::None => r == default_extractor,
        },
{
    match &signature.preferred_extractor {
        Option::Some(preferred) => preferred,
        Option::None => default_extractor,
    }
}

/// An owned copy of an extractor definition.
pub fn clone_extractor(e: &Extractor) -> (r: Extractor)
    ensures
        same_extractor(r, *e),
{
    let utility = match &e.utility {
        ExtractorType::External(c) => ExtractorType::External(c.clone()),
        ExtractorType::Internal => ExtractorType::Internal,
        ExtractorType::Undefined => ExtractorType::Undefined,
    };
    let mut arguments: Vec<String> = Vec::new();
    let mut i: usize = 0;
    while i < e.arguments.len()
        invariant
            i <= e.arguments@.len(),
            arguments@.len() == i,
            forall|t: int| 0 <= t < i ==> (#[trigger] arguments@[t])@ == e.arguments@[t]@,
        decreases e.arguments@.len() - i,
    {
        arguments.push(e.arguments[i].clone());
        i = i + 1;
    }
    let mut exit_codes: Vec<i32> = Vec::new();
    let mut j: usize = 0;
    while j < e.exit_codes.len()
        invariant
            j <= e.exit_codes@.len(),
            exit_codes@.len() == j,
            forall|t: int| 0 <= t < j ==> #[trigger] exit_codes@[t] == e.exit_codes@[t],
        decreases e.exit_codes@.len() - j,
    {
        exit_codes.push(e.exit_codes[j]);
        j = j + 1;
    }
    let r = Extractor {
        utility,
        extension: e.extension.clone(),
        arguments,
        exit_codes,
        do_not_recurse: e.do_not_recurse,
    };
    proof {
        assert(r.arguments@.map_values(|s: String| s@)
            =~= e.arguments@.map_values(|s: String| s@));
        assert(r.exit_codes@ =~= e.exit_codes@);
    }
    r
}

/// Whether the matched range spans the entire source buffer: then nothing
/// is copied and the carved input is a symlink to the source file.
pub open spec fn spec_whole_file_match(offset: int, size: int, data_len: int) -> bool {
    offset == 0 && size == data_len
}

/// Carves the matched range and plans the external invocation: the carved
/// input lands at `<output_dir>/<name>_<HEX>.<ext>` — as a symlink to the
/// source file for a whole-buffer match, as a copy of the byte range
/// otherwise — and every placeholder argument is replaced by that path.
pub fn spawn(
    fs: &mut Sandbox,
    file_data: &Vec<u8>,
    file_path: &String,
    output_directory: &String,
    signature: &SignatureResult,
    extractor: Extractor,
) -> (r: Result<SpawnPlan, ExtractionError>)
    requires
        old(fs).wf(),
        extractor.utility is External,
    ensures
        final(fs).wf(),
        ({
            let carved = spec_carved_file_path(
                output_directory@,
                signature.name@,
                signature.offset as int,
                extractor.extension@,
            );
            let k = spec_chrooted_path(carved, seq!['/']);
            let whole = spec_whole_file_match(
                signature.offset as int, signature.size as int, file_data@.len() as int);
            &&& (r is Ok <==> (if whole {
                !old(fs)@.dom().contains(k)
            } else {
                create_file_ok(
                    old(fs)@,
                    carved,
                    seq!['/'],
                    file_data@.len() as int,
                    signature.offset as int,
                    signature.size as int,
                )
            }))
            &&& (match r {
                Result::Ok(plan) => {
                    &&& plan.carved_file@ == carved
                    &&& plan.command@ == command_of(extractor.utility)
                    &&& plan.working_directory@ == output_directory@
                    &&& plan.exit_codes@ == extractor.exit_codes@
                    &&& plan.arguments@.len() == extractor.arguments@.len()
                    &&& (forall|i: int|
                        0 <= i < extractor.arguments@.len()
                            ==> (#[trigger] plan.arguments@[i])@ == (
                            if extractor.arguments@[i]@ == placeholder_text() {
                                carved
                            } else {
                                extractor.arguments@[i]@
                            }))
                    &&& (whole ==> final(fs)@ == old(fs)@.insert(
                        k,
                        NodeData {
                            kind: NodeKind::Symlink,
                            content: Seq::<u8>::empty(),
                            link_target: spec_symlink_target(carved, file_path@, seq!['/']),
                            exec_bit: false,
                        },
                    ))
                    &&& (!whole ==> final(fs)@ == old(fs)@.insert(
                        k,
                        NodeData {
                            kind: NodeKind::Regular,
                            content: file_data@.subrange(
                                signature.offset as int,
                                signature.offset as int + signature.size as int,
                            ),
                            link_target: Seq::<char>::empty(),
                            exec_bit: false,
                        },
                    ))
                },
                Result::Err(_) => final(fs)@ == old(fs)@,
            })
        }),
{
    let carved_file = carved_file_path(
        output_directory, &signature.name, signature.offset, &extractor.extension);
    let root = root_dir();
    let carved_ok = if signature.offset == 0 && signature.size == file_data.len() {
        fs.create_symlink(&carved_file, file_path, &root)
    } else {
        fs.create_file(
            &carved_file, file_data.as_slice(), signature.offset, signature.size, &root)
    };
    if !carved_ok {
        return Result::Err(ExtractionError);
    }
    let command: String = match &extractor.utility {
        ExtractorType::External(cmd) => cmd.clone(),
        _ => {
            proof {
                assert(false);
            }
            String::new()
        }
    };
    let arguments = substitute_arguments(&extractor.arguments, &carved_file);
    Result::Ok(SpawnPlan {
        command,
        arguments,
        working_directory: output_directory.clone(),
        carved_file,
        exit_codes: extractor.exit_codes,
    })
}

/// Settles one finished external process: the carved input file is
/// deleted from the ledger whatever the outcome, then the exit status is
/// judged by the exit-code policy. Only `success` is populated; the
/// orchestrator fills the rest.
pub fn proc_wait(fs: &mut Sandbox, exit_status: Option<i32>, plan: SpawnPlan) -> (r:
    ExtractionResult)
    requires
        old(fs).wf(),
    ensures
        final(fs).wf(),
        final(fs)@ == old(fs)@.remove(plan.carved_file@),
        r.success == spec_exit_success(exit_status, plan.exit_codes@),
        r.size is None,
        r.extractor@ == Seq::<char>::empty(),
        r.do_not_recurse == false,
        r.output_directory@ == Seq::<char>::empty(),
{
    let removed = fs.remove_file(&plan.carved_file);
    proof {
        if !removed {
            assert(fs@ =~= old(fs)@.remove(plan.carved_file@));
        }
    }
    let success = exit_code_success(exit_status, &plan.exit_codes);
    ExtractionResult {
        size: Option::None,
        success,
        extractor: String::new(),
        do_not_recurse: false,
        output_directory: String::new(),
    }
}

/// The diagnostic name given to a built-in extractor's result:
/// `<signature name>_built_in`.
pub open spec fn built_in_name(signature_name: Seq<char>) -> Seq<char> {
    signature_name + seq!['_', 'b', 'u', 'i', 'l', 't', '_', 'i', 'n']
}

pub fn built_in_extractor_name(signature_name: &String) -> (r: String)
    ensures
        r@ == built_in_name(signature_name@),
{
    let mut s = signature_name.clone();
    s.append("_built_in");
    proof {
        reveal_strlit("_built_in");
        assert(s@ =~= built_in_name(signature_name@));
    }
    s
}

/// Final normalization of any extraction: stamps the output directory and
/// the definition's do-not-recurse flag over whatever the extractor set,
/// downgrades a claimed success when nothing landed under the output
/// directory, and deletes the whole output directory from the ledger when
/// the extraction ends up failed.
pub fn execute_finish(
    fs: &mut Sandbox,
    result: ExtractionResult,
    output_directory: &String,
    definition_do_not_recurse: bool,
) -> (r: ExtractionResult)
    requires
        old(fs).wf(),
    ensures
        final(fs).wf(),
        r.success == (result.success && spec_anything_under(old(fs)@, output_directory@)),
        r.output_directory@ == output_directory@,
        r.do_not_recurse == definition_do_not_recurse,
        r.size == result.size,
        r.extractor@ == result.extractor@,
        r.success ==> final(fs)@ == old(fs)@,
        !r.success ==> final(fs)@ == old(fs)@.remove_keys(keys_under(output_directory@)),
{
    let mut out = result;
    out.output_directory = output_directory.clone();
    out.do_not_recurse = definition_do_not_recurse;
    if out.success {
        if !fs.was_something_extracted(output_directory) {
            out.success = false;
        }
    }
    if !out.success {
        fs.remove_dir_all(output_directory);
    }
    out
}

/// Orchestration around a built-in extractor: its raw result gets the
/// diagnostic name `<signature name>_built_in`, then the common final
/// normalization.
pub fn execute_internal(
    fs: &mut Sandbox,
    raw: ExtractionResult,
    signature_name: &String,
    output_directory: &String,
    definition_do_not_recurse: bool,
) -> (r: ExtractionResult)
    requires
        old(fs).wf(),
    ensures
        final(fs).wf(),
        r.success == (raw.success && spec_anything_under(old(fs)@, output_directory@)),
        r.output_directory@ == output_directory@,
        r.do_not_recurse == definition_do_not_recurse,
        r.size == raw.size,
        r.extractor@ == built_in_name(signature_name@),
        r.success ==> final(fs)@ == old(fs)@,
        !r.success ==> final(fs)@ == old(fs)@.remove_keys(keys_under(output_directory@)),
{
    let mut named = raw;
    named.extractor = built_in_extractor_name(signature_name);
    execute_finish(fs, named, output_directory, definition_do_not_recurse)
}

/// Cleanup on failure leaves no trace: after the output directory is
/// removed, neither it nor anything below it remains in the ledger.
pub proof fn lemma_cleanup_removes_output(
    m: Map<Seq<char>, NodeData>,
    dir: Seq<char>,
    k: Seq<char>,
)
    requires
        keys_under(dir).contains(k),
    ensures
        !m.remove_keys(keys_under(dir)).dom().contains(k),
{
}

} // verus!
