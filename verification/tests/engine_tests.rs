use carver::engine::{
    built_in_extractor_name, carved_file_path, create_output_directory, exit_code_success,
    execute_finish, execute_internal, proc_wait, source_file_placeholder, spawn,
    substitute_arguments, ExtractionResult, Extractor, ExtractorType, SignatureResult,
};
use carver::numerals::{decimal_string, hex_upper_string};
use carver::sandbox::{NodeKind, Sandbox};

fn s(x: &str) -> String {
    String::from(x)
}

fn raw_result(success: bool) -> ExtractionResult {
    ExtractionResult {
        size: None,
        success,
        extractor: String::new(),
        do_not_recurse: false,
        output_directory: String::new(),
    }
}

fn gzip_extractor() -> Extractor {
    Extractor {
        utility: ExtractorType::External(s("unzip")),
        extension: s("gz"),
        arguments: vec![s("-o"), s("%e")],
        exit_codes: vec![2],
        do_not_recurse: false,
    }
}

fn gzip_signature(offset: usize, size: usize) -> SignatureResult {
    SignatureResult {
        name: s("gzip"),
        offset,
        size,
        preferred_extractor: None,
    }
}

#[test]
fn exit_code_zero_always_succeeds() {
    assert!(exit_code_success(Some(0), &vec![]));
    assert!(exit_code_success(Some(0), &vec![1, 2]));
}

#[test]
fn exit_code_in_accepted_set_succeeds() {
    assert!(exit_code_success(Some(2), &vec![1, 2]));
}

#[test]
fn exit_code_outside_accepted_set_fails() {
    assert!(!exit_code_success(Some(3), &vec![1, 2]));
    assert!(!exit_code_success(Some(-1), &vec![]));
}

#[test]
fn signal_termination_fails() {
    assert!(!exit_code_success(None, &vec![0, 1, 2]));
}

#[test]
fn numeral_rendering() {
    assert_eq!(decimal_string(0), "0");
    assert_eq!(decimal_string(90210), "90210");
    assert_eq!(hex_upper_string(0), "0");
    assert_eq!(hex_upper_string(255), "FF");
    assert_eq!(hex_upper_string(4096), "1000");
}

#[test]
fn placeholder_substitution() {
    assert_eq!(source_file_placeholder(), "%e");
    let args = vec![s("-o"), s("%e"), s("%effort")];
    let out = substitute_arguments(&args, &s("/out/carved.gz"));
    assert_eq!(out, vec![s("-o"), s("/out/carved.gz"), s("%effort")]);
}

#[test]
fn carved_file_naming() {
    let p = carved_file_path(&s("/out"), &s("gzip"), 0xBEEF, &s("gz"));
    assert_eq!(p, "/out/gzip_BEEF.gz");
}

#[test]
fn output_directory_naming() {
    let mut fs = Sandbox::new();
    let dir = create_output_directory(&mut fs, &s("/tmp/f.bin"), 255).unwrap();
    assert_eq!(dir, "/tmp/f.bin.extracted/FF");
    assert_eq!(fs.lookup_kind(&dir), Some(NodeKind::Directory));
}

#[test]
fn output_directory_collision_with_file_fails() {
    let mut fs = Sandbox::new();
    let data = [1u8];
    assert!(fs.create_file(&s("/tmp/f.bin.extracted/0"), &data, 0, 1, &s("/")));
    assert!(create_output_directory(&mut fs, &s("/tmp/f.bin"), 0).is_err());
}

#[test]
fn whole_file_match_symlinks_instead_of_copying() {
    let mut fs = Sandbox::new();
    let dir = create_output_directory(&mut fs, &s("/tmp/f.bin"), 0).unwrap();
    let data = vec![1u8, 2, 3, 4];
    let plan = spawn(&mut fs, &data, &s("/tmp/f.bin"), &dir, &gzip_signature(0, 4), gzip_extractor())
        .unwrap();
    assert_eq!(plan.carved_file, "/tmp/f.bin.extracted/0/gzip_0.gz");
    assert_eq!(plan.command, "unzip");
    assert_eq!(plan.arguments, vec![s("-o"), plan.carved_file.clone()]);
    assert_eq!(plan.working_directory, dir);
    assert_eq!(fs.lookup_kind(&plan.carved_file), Some(NodeKind::Symlink));
    let target = fs.lookup_link_target(&plan.carved_file).unwrap();
    assert_eq!(target, "/tmp/f.bin");
}

#[test]
fn partial_match_copies_byte_range() {
    let mut fs = Sandbox::new();
    let dir = create_output_directory(&mut fs, &s("/tmp/f.bin"), 1).unwrap();
    let data = vec![1u8, 2, 3, 4];
    let plan = spawn(&mut fs, &data, &s("/tmp/f.bin"), &dir, &gzip_signature(1, 2), gzip_extractor())
        .unwrap();
    assert_eq!(fs.lookup_kind(&plan.carved_file), Some(NodeKind::Regular));
    assert_eq!(fs.lookup_content(&plan.carved_file).unwrap(), vec![2u8, 3]);
}

#[test]
fn spawn_fails_when_carved_path_taken() {
    let mut fs = Sandbox::new();
    let dir = create_output_directory(&mut fs, &s("/tmp/f.bin"), 0).unwrap();
    let data = vec![1u8, 2];
    assert!(spawn(&mut fs, &data, &s("/tmp/f.bin"), &dir, &gzip_signature(0, 2), gzip_extractor())
        .is_ok());
    assert!(spawn(&mut fs, &data, &s("/tmp/f.bin"), &dir, &gzip_signature(0, 2), gzip_extractor())
        .is_err());
}

#[test]
fn wait_deletes_carved_file_and_judges_exit_code() {
    let mut fs = Sandbox::new();
    let dir = create_output_directory(&mut fs, &s("/tmp/f.bin"), 0).unwrap();
    let data = vec![1u8, 2, 3];
    let plan = spawn(&mut fs, &data, &s("/tmp/f.bin"), &dir, &gzip_signature(1, 1), gzip_extractor())
        .unwrap();
    let carved = plan.carved_file.clone();
    assert!(fs.contains_path(&carved));
    let r = proc_wait(&mut fs, Some(2), plan);
    assert!(r.success);
    assert!(!fs.contains_path(&carved));
}

#[test]
fn wait_fails_on_unlisted_code_but_still_deletes() {
    let mut fs = Sandbox::new();
    let dir = create_output_directory(&mut fs, &s("/tmp/f.bin"), 0).unwrap();
    let data = vec![1u8, 2, 3];
    let plan = spawn(&mut fs, &data, &s("/tmp/f.bin"), &dir, &gzip_signature(1, 1), gzip_extractor())
        .unwrap();
    let carved = plan.carved_file.clone();
    let r = proc_wait(&mut fs, Some(9), plan);
    assert!(!r.success);
    assert!(!fs.contains_path(&carved));
}

#[test]
fn empty_output_downgrades_success() {
    let mut fs = Sandbox::new();
    let dir = create_output_directory(&mut fs, &s("/tmp/f.bin"), 0).unwrap();
    let r = execute_finish(&mut fs, raw_result(true), &dir, false);
    assert!(!r.success);
}

#[test]
fn failed_extraction_leaves_no_output_directory() {
    let mut fs = Sandbox::new();
    let dir = create_output_directory(&mut fs, &s("/tmp/f.bin"), 0).unwrap();
    let data = [5u8; 4];
    assert!(fs.create_file(&s("/tmp/f.bin.extracted/0/partial"), &data, 0, 4, &s("/")));
    let r = execute_finish(&mut fs, raw_result(false), &dir, true);
    assert!(!r.success);
    assert!(r.do_not_recurse);
    assert_eq!(r.output_directory, dir);
    assert!(!fs.contains_path(&dir));
    assert!(!fs.contains_path(&s("/tmp/f.bin.extracted/0/partial")));
}

#[test]
fn successful_extraction_keeps_output() {
    let mut fs = Sandbox::new();
    let dir = create_output_directory(&mut fs, &s("/tmp/f.bin"), 0).unwrap();
    let data = [5u8; 4];
    assert!(fs.create_file(&s("/tmp/f.bin.extracted/0/out.txt"), &data, 0, 4, &s("/")));
    let r = execute_finish(&mut fs, raw_result(true), &dir, false);
    assert!(r.success);
    assert_eq!(r.output_directory, dir);
    assert!(fs.contains_path(&s("/tmp/f.bin.extracted/0/out.txt")));
}

#[test]
fn internal_extractor_gets_built_in_name() {
    assert_eq!(built_in_extractor_name(&s("gzip")), "gzip_built_in");
    let mut fs = Sandbox::new();
    let dir = create_output_directory(&mut fs, &s("/tmp/f.bin"), 0).unwrap();
    let data = [5u8; 4];
    assert!(fs.create_file(&s("/tmp/f.bin.extracted/0/out.txt"), &data, 0, 4, &s("/")));
    let r = execute_internal(&mut fs, raw_result(true), &s("gzip"), &dir, true);
    assert!(r.success);
    assert!(r.do_not_recurse);
    assert_eq!(r.extractor, "gzip_built_in");
}
