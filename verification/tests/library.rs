use silhouette::compilation::{
    compile_arguments, compile_command_line, compile_commands_entry, join_spaced, link_arguments,
    link_command_line, object_path, plan_compilation, source_to_object,
};
use silhouette::config::{Config, ConfigError, ConfigKey, key_of};
use silhouette::dep::{get_dependent_sources, get_file_dependencies, get_modified};
use silhouette::file::{
    classify_paths, file_kind, hash_contents, kind_for, parse_silcache, render_silcache, to_hex_lower,
    FileHashes, FileKind,
};
use silhouette::header_locater::{header_candidates, parse_include_paths};
use silhouette::lexer::Lexer;
use silhouette::text::{
    after_last, chars_to_string, ends_with, is_alphabetic, is_numeric, is_whitespace, split_lines,
    split_once, split_whitespace, starts_with, to_chars, trim, trim_start,
};

fn s(x: &str) -> String {
    x.to_string()
}

fn strings(xs: &[&str]) -> Vec<String> {
    xs.iter().map(|x| x.to_string()).collect()
}

fn lines_of(text: &str) -> Vec<String> {
    split_lines(&to_chars(text)).iter().map(|l| chars_to_string(l)).collect()
}

fn hashes(entries: &[(&str, &str)]) -> FileHashes {
    let es: Vec<(String, String)> = entries.iter().map(|(a, b)| (a.to_string(), b.to_string())).collect();
    FileHashes::from_entries(&es)
}

fn tokens_of(text: &str) -> Vec<String> {
    let mut lexer = Lexer::from(text.to_string());
    lexer.tokens()
}

// ---- text ----

#[test]
fn lines_split_like_str_lines() {
    assert_eq!(lines_of("a\nb\r\nc"), strings(&["a", "b", "c"]));
    assert_eq!(lines_of("a\n"), strings(&["a"]));
    assert_eq!(lines_of("\n"), strings(&[""]));
    assert_eq!(lines_of(""), Vec::<String>::new());
    assert_eq!(lines_of("a\rb\n\nc\r"), strings(&["a\rb", "", "c\r"]));
    let text = "x y\r\n\n  z\t\n";
    assert_eq!(lines_of(text), text.lines().map(|l| l.to_string()).collect::<Vec<_>>());
}

#[test]
fn trimming_and_splitting() {
    assert_eq!(chars_to_string(&trim_start(&to_chars("  \t a b "))), "a b ");
    assert_eq!(chars_to_string(&trim(&to_chars(" \u{a0}a b\u{3000} "))), "a b");
    let (a, b) = split_once(&to_chars("key  value x"), ' ').unwrap();
    assert_eq!(chars_to_string(&a), "key");
    assert_eq!(chars_to_string(&b), " value x");
    assert!(split_once(&to_chars("novalue"), ' ').is_none());
    let words: Vec<String> = split_whitespace(&to_chars("  -O2 \t-Wall\n-g ")).iter().map(|w| chars_to_string(w)).collect();
    assert_eq!(words, strings(&["-O2", "-Wall", "-g"]));
    assert!(split_whitespace(&to_chars("   ")).is_empty());
    assert_eq!(chars_to_string(&after_last(&to_chars("a.b.c"), '.')), "c");
    assert_eq!(chars_to_string(&after_last(&to_chars("abc"), '.')), "abc");
    assert_eq!(chars_to_string(&after_last(&to_chars("abc."), '.')), "");
    assert!(starts_with(&to_chars("abc"), &to_chars("ab")));
    assert!(!starts_with(&to_chars("a"), &to_chars("ab")));
    assert!(ends_with(&to_chars("x/y/foo.h"), &to_chars("foo.h")));
    assert!(ends_with(&to_chars("foo.h"), &to_chars("")));
    assert!(!ends_with(&to_chars("foo.h"), &to_chars("bar.h")));
}

#[test]
fn character_classes() {
    assert!(is_whitespace(' ') && is_whitespace('\u{a0}') && !is_whitespace('x'));
    assert!(is_alphabetic('a') && is_alphabetic('京') && !is_alphabetic('1') && !is_alphabetic('\0'));
    assert!(is_numeric('7') && is_numeric('٣') && !is_numeric('a') && !is_numeric('\0'));
}

// ---- config ----

#[test]
fn config_defaults_when_only_comments() {
    let c = Config::parse(s("; nothing set\n   ; still nothing")).unwrap();
    assert_eq!(c.entrypoint, "main");
    assert_eq!(c.source, "./src/");
    assert_eq!(c.include_dir, "./src/include/");
    assert_eq!(c.build, "./build/");
    assert_eq!(c.ccargs, "");
    assert_eq!(c.ldargs, "");
    assert_eq!(c.compiler, "gcc");
    assert_eq!(c.source_ext, "c");
    assert_eq!(c.header_ext, "h");
}

#[test]
fn config_empty_text_is_all_defaults() {
    let c = Config::from(s("x")).compiler;
    assert_eq!(c, "gcc");
    let c = Config::parse(s("")).unwrap();
    assert_eq!(c.compiler, "gcc");
}

#[test]
fn config_settings_and_last_one_wins() {
    let c = Config::parse(s("source ./my_source\ncompiler clang\nccargs -O2 -Wall\ncompiler tcc\n; compiler zig\ninclude ./inc")).unwrap();
    assert_eq!(c.source, "./my_source");
    assert_eq!(c.compiler, "tcc");
    assert_eq!(c.ccargs, "-O2 -Wall");
    assert_eq!(c.include_dir, "./inc");
    assert_eq!(c.build, "./build/");
}

#[test]
fn config_value_keeps_everything_after_first_space() {
    let c = Config::parse(s("ldargs  -lm -lpthread \r\nheader_ext hpp")).unwrap();
    assert_eq!(c.ldargs, " -lm -lpthread ");
    assert_eq!(c.header_ext, "hpp");
}

#[test]
fn config_errors() {
    match Config::check("source a\n\nbuild b") {
        Err(ConfigError::BlankLine { line }) => assert_eq!(line, 1),
        other => panic!("unexpected {other:?}"),
    }
    match Config::check("source a\n  \t") {
        Err(ConfigError::BlankLine { line }) => assert_eq!(line, 1),
        other => panic!("unexpected {other:?}"),
    }
    match Config::check("; ok\nsource") {
        Err(ConfigError::MissingValue { line }) => assert_eq!(line, 1),
        other => panic!("unexpected {other:?}"),
    }
    match Config::check("colour red") {
        Err(ConfigError::UnknownAttribute { line, attribute }) => {
            assert_eq!(line, 0);
            assert_eq!(attribute, "colour");
        }
        other => panic!("unexpected {other:?}"),
    }
    match Config::check("  source ./x") {
        Err(ConfigError::UnknownAttribute { line, attribute }) => {
            assert_eq!(line, 0);
            assert_eq!(attribute, "");
        }
        other => panic!("unexpected {other:?}"),
    }
    assert!(Config::check("source a\n; c\nbuild b\n").is_ok());
    assert!(Config::parse(s("bogus x")).is_err());
}

#[test]
fn config_keys() {
    assert!(matches!(key_of(&to_chars("source_ext")), Some(ConfigKey::SourceExt)));
    assert!(matches!(key_of(&to_chars("include")), Some(ConfigKey::Include)));
    assert!(key_of(&to_chars("Source")).is_none());
}

// ---- file hashes and the cache ----

#[test]
fn file_hashes_insert_get_and_order() {
    let mut h = FileHashes::new();
    assert_eq!(h.len(), 0);
    h.insert(s("b.c"), s("1"));
    h.insert(s("a.c"), s("2"));
    h.insert(s("b.c"), s("3"));
    assert_eq!(h.len(), 2);
    assert_eq!(h.get(&s("b.c")), Some(&s("3")));
    assert_eq!(h.get(&s("a.c")), Some(&s("2")));
    assert_eq!(h.get(&s("z.c")), None);
    assert_eq!(h.paths(), strings(&["b.c", "a.c"]));
    let f = hashes(&[("x", "1"), ("y", "2"), ("x", "9")]);
    assert_eq!(f.paths(), strings(&["x", "y"]));
    assert_eq!(f.get(&s("x")), Some(&s("9")));
}

#[test]
fn file_kinds() {
    assert!(matches!(file_kind("/p/main.c"), FileKind::Source));
    assert!(matches!(file_kind("inc/x.h"), FileKind::Header));
    assert!(matches!(file_kind("notes.txt"), FileKind::Other));
    assert!(matches!(file_kind("c"), FileKind::Source));
    assert!(matches!(file_kind("a.hh"), FileKind::Other));
    let (src, hdr) = classify_paths(&strings(&["a.c", "b.h", "README", "c.c", "d.h"]), "c", "h");
    assert_eq!(src, strings(&["a.c", "c.c"]));
    assert_eq!(hdr, strings(&["b.h", "d.h"]));
    let (src, hdr) = classify_paths(&strings(&["a.cpp", "b.hpp", "c.c", "d.h", "e.cpp"]), "cpp", "hpp");
    assert_eq!(src, strings(&["a.cpp", "e.cpp"]));
    assert_eq!(hdr, strings(&["b.hpp"]));
    assert!(matches!(kind_for("x.cc", "cc", "hh"), FileKind::Source));
    assert!(matches!(kind_for("x.c", "cc", "hh"), FileKind::Other));
}

#[test]
fn silcache_parse() {
    let c = parse_silcache("/p/a.c 111\n/p/b.h 222\nnotes.txt 333\n/p/a.c 444\n").unwrap();
    assert_eq!(c.hashes.0.get(&s("/p/a.c")), Some(&s("444")));
    assert_eq!(c.hashes.0.len(), 1);
    assert_eq!(c.hashes.1.get(&s("/p/b.h")), Some(&s("222")));
    assert_eq!(c.skipped, strings(&["notes.txt"]));
    assert!(parse_silcache("/p/a.c 1\nbroken\n").is_none());
    let empty = parse_silcache("").unwrap();
    assert_eq!(empty.hashes.0.len() + empty.hashes.1.len(), 0);
}

#[test]
fn silcache_roundtrip() {
    let h = (hashes(&[("/p/a.c", "aa"), ("/p/b.c", "bb")]), hashes(&[("/p/x.h", "cc")]));
    let text = render_silcache(&h);
    assert_eq!(text, "/p/a.c aa\n/p/b.c bb\n/p/x.h cc\n");
    let back = parse_silcache(&text).unwrap();
    assert_eq!(back.hashes.0.paths(), h.0.paths());
    assert_eq!(back.hashes.0.get(&s("/p/b.c")), Some(&s("bb")));
    assert_eq!(back.hashes.1.get(&s("/p/x.h")), Some(&s("cc")));
    assert!(back.skipped.is_empty());
    assert_eq!(render_silcache(&(FileHashes::new(), FileHashes::new())), "");
}

#[test]
fn hashing() {
    assert_eq!(to_hex_lower(&[0x0a, 0xff, 0x00, 0x9b]), "0aff009b");
    assert_eq!(hash_contents(b""), "e3b0c44298fc1c149afbf4c8996fb92427ae41e4649b934ca495991b7852b855");
    assert_eq!(hash_contents(b"abc"), "ba7816bf8f01cfea414140de5dae2223b00361a396177a9cb410ff61f20015ad");
    assert_ne!(hash_contents(b"abd"), hash_contents(b"abc"));
}

// ---- change detection ----

#[test]
fn modified_paths() {
    let old = hashes(&[("a.c", "1"), ("b.c", "2"), ("gone.c", "3")]);
    let new = hashes(&[("b.c", "2"), ("a.c", "9"), ("new.c", "4")]);
    assert_eq!(get_modified(&old, &new), strings(&["a.c", "new.c"]));
    assert!(get_modified(&new, &new).is_empty());
    assert_eq!(get_modified(&FileHashes::new(), &new), strings(&["b.c", "a.c", "new.c"]));
}

#[test]
fn include_dependencies() {
    let text = "#include <stdio.h>\n#include\"util/a.h\"\n  #include   <b.h>\nint x; // #include nothing\n#include <\"q\">";
    assert_eq!(get_file_dependencies(text), strings(&["stdio.h", "util/a.h", "b.h", ""]));
    assert!(get_file_dependencies("int main() {}").is_empty());
    assert_eq!(get_file_dependencies("#include <a.h\n> #include <b.h>"), strings(&["b.h"]));
}

#[test]
fn dependent_sources() {
    let sources = strings(&["a.c", "b.c", "c.c"]);
    let deps = vec![strings(&["x.h"]), strings(&["util/y.h", "stdio.h"]), Vec::new()];
    let headers = strings(&["/p/src/include/util/y.h"]);
    assert_eq!(get_dependent_sources(&sources, &deps, &headers), strings(&["b.c"]));
    let headers = strings(&["/p/x.h", "/p/util/y.h"]);
    assert_eq!(get_dependent_sources(&sources, &deps, &headers), strings(&["a.c", "b.c"]));
    assert!(get_dependent_sources(&sources, &deps, &Vec::new()).is_empty());
}

// ---- header search ----

#[test]
fn include_paths_from_compiler_output() {
    let out = "ignoring nonexistent directory \"/x\"\n#include \"...\" search starts here:\n#include <...> search starts here:\n /usr/lib/gcc/include\n /usr/local/include\r\n /usr/include\nEnd of search list.\n /after\n";
    assert_eq!(parse_include_paths(out), strings(&["/usr/lib/gcc/include", "/usr/local/include", "/usr/include"]));
    assert!(parse_include_paths("no list here\n").is_empty());
    assert_eq!(parse_include_paths("#include <...> search starts here:\n a \n"), strings(&["a"]));
}

#[test]
fn header_places() {
    assert_eq!(
        header_candidates(&strings(&["/usr/include", "/opt/inc"]), "stdio.h"),
        strings(&["/usr/include/stdio.h", "/opt/inc/stdio.h"])
    );
    assert!(header_candidates(&Vec::new(), "a.h").is_empty());
}

// ---- compilation ----

#[test]
fn object_names() {
    assert_eq!(source_to_object("/p/src/main.c"), "main.o");
    assert_eq!(source_to_object("util.tar.c"), "util.tar.o");
    assert_eq!(source_to_object("dir/noext"), "noext.o");
    assert_eq!(object_path("./build/", "/p/src/main.c"), "./build//main.o");
}

#[test]
fn compiler_invocation() {
    assert_eq!(
        compile_arguments(" -O2  -Wall ", "./inc", "./build", "/p/a.c"),
        strings(&["-c", "-o", "./build/a.o", "-I", "./inc", "-O2", "-Wall", "/p/a.c"])
    );
    assert_eq!(compile_arguments("", "i", "b", "x.c"), strings(&["-c", "-o", "b/x.o", "-I", "i", "x.c"]));
    assert_eq!(
        compile_command_line("gcc", "-O2", "./inc", "./build", "/p/a.c"),
        "gcc -c -o ./build/a.o -I ./inc -O2 /p/a.c"
    );
}

#[test]
fn compile_commands_entries() {
    let c = Config::parse(s("build out\nccargs -g\nldargs -lm")).unwrap();
    let (output, command) = compile_commands_entry(&c, "/p/a.c");
    assert_eq!(output, "out/a.o");
    assert_eq!(command, "gcc -o out/a.o -c /p/a.c -I ./src/include/ -g -lm");
}

#[test]
fn linker_invocation() {
    let objects = strings(&["/b/a.o", "/b/c.o"]);
    assert_eq!(join_spaced(&objects), "/b/a.o /b/c.o");
    assert_eq!(join_spaced(&Vec::new()), "");
    assert_eq!(link_arguments("./build", &objects, "-lm  -lz"), strings(&["-o", "./build/main", "/b/a.o", "/b/c.o", "-lm", "-lz"]));
    assert_eq!(link_command_line("cc", "./build", &objects, "-lm"), "cc -o ./build/main /b/a.o /b/c.o -lm");
}

#[test]
fn compilation_plan() {
    let all = strings(&["a.c", "b.c", "c.c", "d.c"]);
    let plan = plan_compilation(&all, &strings(&["b.c"]), &strings(&["c.c", "b.c"]), &vec![true, true, false, false]);
    assert_eq!(plan, strings(&["b.c", "c.c", "d.c"]));
    assert!(plan_compilation(&all, &Vec::new(), &Vec::new(), &vec![true; 4]).is_empty());
}

// ---- lexer ----

#[test]
fn lexer_tokens_of_c_code() {
    assert_eq!(
        tokens_of("int main() { return 42; }"),
        strings(&["int", "main", "(", ")", "{", "return", "42", ";", "}"])
    );
}

#[test]
fn lexer_words_numbers_and_symbols() {
    assert_eq!(tokens_of("abc123 45x"), strings(&["abc123", "45", "x"]));
    assert_eq!(tokens_of("a+=b"), strings(&["a", "+", "=", "b"]));
    assert_eq!(tokens_of("été٣"), strings(&["été٣"]));
}

#[test]
fn lexer_trailing_whitespace_gives_nul_token() {
    assert_eq!(tokens_of("x \n"), strings(&["x", "\0"]));
    assert_eq!(tokens_of("   "), strings(&["\0"]));
    assert_eq!(tokens_of("x"), strings(&["x"]));
}

#[test]
fn lexer_stops_at_nul() {
    assert_eq!(tokens_of("a\0b"), strings(&["a"]));
    assert_eq!(tokens_of("a \0b"), strings(&["a", "\0", "b"]));
}

#[test]
fn lexer_keeps_visible_text() {
    let text = "if(x<=10){y=x*2;}";
    let joined: String = tokens_of(text).concat();
    assert_eq!(joined, text);
    let tokens = tokens_of(" a  b\tc ");
    assert!(tokens.iter().all(|t| !t.is_empty()));
    let visible: String = tokens.concat().chars().filter(|c| !c.is_ascii_whitespace() && *c != '\0').collect();
    assert_eq!(visible, "abc");
}

#[test]
fn lexer_exhausted_after_tokens() {
    let mut lexer = Lexer::from(s("a b "));
    assert_eq!(lexer.tokens(), strings(&["a", "b", "\0"]));
    assert!(lexer.tokens().is_empty());
    assert!(lexer.tokens().is_empty());
}
