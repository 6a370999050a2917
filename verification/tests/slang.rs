use pool::slang::{cache_file_names, cache_key, compile_args, hex_text, version_outcome, SlangError};

#[test]
fn cache_key_is_sha256_of_the_length_prefixed_parts() {
    assert_eq!(cache_key("a", "b", "c"), "3d10f2e96612f8284bd5233f0c75d6283331be5afd353c22cfacb4872685a972");
    assert_ne!(cache_key("ab", "c", "fragment"), cache_key("a", "bc", "fragment"));
    assert_ne!(cache_key("ab", "", "c"), cache_key("a", "bc", ""));
    assert_eq!(cache_key("x", "main", "fragment"), cache_key("x", "main", "fragment"));
    assert_eq!(cache_key("", "", "").len(), 64);
}

#[test]
fn cache_files_share_the_key() {
    let (spv, src) = cache_file_names("a", "b", "c");
    assert_eq!(spv, "3d10f2e96612f8284bd5233f0c75d6283331be5afd353c22cfacb4872685a972.spv");
    assert_eq!(src, "3d10f2e96612f8284bd5233f0c75d6283331be5afd353c22cfacb4872685a972.slang");
}

#[test]
fn hex_is_two_lowercase_digits_per_byte() {
    assert_eq!(hex_text(&vec![0x00, 0x0f, 0xa5, 0xff]), "000fa5ff");
    assert_eq!(hex_text(&vec![]), "");
}

#[test]
fn version_reads_the_first_line() {
    assert_eq!(version_outcome(true, "slangc 2024.1\nmore\n"), Ok("slangc 2024.1".to_string()));
    assert_eq!(version_outcome(true, ""), Ok(String::new()));
    assert_eq!(version_outcome(false, "x"), Err(SlangError::Compile("version query failed".to_string())));
}

#[test]
fn compile_command_line() {
    let args = compile_args("k.slang", "main", "fragment", "k.spv");
    assert_eq!(args, vec!["k.slang", "-target", "spirv", "-entry", "main", "-stage", "fragment", "-o", "k.spv"]);
}

#[test]
fn slang_error_messages() {
    assert_eq!(SlangError::NotFound.message(), "slangc not found (set SLANGC_PATH or PATH)");
    assert_eq!(SlangError::Compile("e".to_string()).message(), "slangc failed: e");
    assert_eq!(SlangError::Io("e".to_string()).message(), "io error: e");
}
