//! The compiler and linker invocations of a build, and the choice of what to
//! recompile.

use vstd::prelude::*;
use vstd::string::StringExecFns;

use crate::config::{Config, ConfigKey};
use crate::header_locater::join_path;
use crate::text::{
    after_last, chars_to_string, rfind_end, spec_after_last, spec_rfind, spec_words,
    split_whitespace, to_chars,
};

verus! {

/// The object file a source compiles to: the source's file name (what follows
/// its last `/`) with the text from its last `.` on replaced by `.o`, or with
/// `.o` added when the name holds no `.`.
pub open spec fn spec_source_to_object(path: Seq<char>) -> Seq<char> {
    let base = spec_after_last(path, '/');
    let dot = spec_rfind(base, '.');
    (if dot >= 0 {
        base.take(dot)
    } else {
        base
    }) + seq!['.', 'o']
}

/// The name of the object file that `path` compiles to.
pub fn source_to_object(path: &str) -> (r: String)
    ensures
        r@ == spec_source_to_object(path@),
{
    let chars = to_chars(path);
    let base = after_last(chars.as_slice(), '/');
    let j = rfind_end(base.as_slice(), '.');
    let mut stem: Vec<char> = Vec::new();
    let end: usize = if j > 0 { j - 1 } else { base.len() };
    let mut i: usize = 0;
    while i < end
        invariant
            end <= base@.len(),
            i <= end,
            stem@ == base@.take(i as int),
        decreases end - i,
    {
        stem.push(base[i]);
        i += 1;
        assert(stem@ =~= base@.take(i as int));
    }
    stem.push('.');
    stem.push('o');
    proof {
        if j == 0 {
            assert(base@.take(end as int) =~= base@);
        }
    }
    assert(stem@ =~= (if spec_rfind(base@, '.') >= 0 {
        base@.take(spec_rfind(base@, '.'))
    } else {
        base@
    }) + seq!['.', 'o']);
    chars_to_string(stem.as_slice())
}

/// The path of the object file for `source` in `build_dir`.
pub open spec fn spec_object_path(build_dir: Seq<char>, source: Seq<char>) -> Seq<char> {
    join_path(build_dir, spec_source_to_object(source))
}

/// `build_dir`, a `/`, then the object name of `source`.
pub fn object_path(build_dir: &str, source: &str) -> (r: String)
    ensures
        r@ == spec_object_path(build_dir@, source@),
{
    let mut r = String::from_str(build_dir);
    r.append("/");
    let obj = source_to_object(source);
    r.append(obj.as_str());
    proof {
        reveal_strlit("/");
    }
    assert(r@ =~= spec_object_path(build_dir@, source@));
    r
}

/// The arguments that compile `path` into its object file in `build_dir`:
/// `-c -o <object> -I <include_dir>`, the words of `ccargs`, then `path`.
pub open spec fn spec_compile_args(ccargs: Seq<char>, include_dir: Seq<char>, build_dir: Seq<char>, path: Seq<char>) -> Seq<Seq<char>> {
    seq!["-c"@, "-o"@, spec_object_path(build_dir, path), "-I"@, include_dir] + spec_words(ccargs)
        + seq![path]
}

/// The compiler arguments for one source.
pub fn compile_arguments(ccargs: &str, include_dir: &str, build_dir: &str, path: &str) -> (r: Vec<String>)
    ensures
        r.deep_view() == spec_compile_args(ccargs@, include_dir@, build_dir@, path@),
{
    let mut r: Vec<String> = Vec::new();
    r.push(String::from_str("-c"));
    r.push(String::from_str("-o"));
    r.push(object_path(build_dir, path));
    r.push(String::from_str("-I"));
    r.push(String::from_str(include_dir));
    let ghost head = r.deep_view();
    let cc = to_chars(ccargs);
    let words = split_whitespace(cc.as_slice());
    let mut i: usize = 0;
    while i < words.len()
        invariant
            i <= words@.len(),
            r.deep_view() == head + words.deep_view().take(i as int),
        decreases words@.len() - i,
    {
        let ghost old_r = r.deep_view();
        assert(words@[i as int].deep_view() =~= words@[i as int]@);
        let w = chars_to_string(words[i].as_slice());
        assert(w@ == words.deep_view()[i as int]);
        r.push(w);
        assert(r.deep_view() =~= old_r.push(words.deep_view()[i as int]));
        assert(head + words.deep_view().take(i + 1) =~= (head + words.deep_view().take(i as int)).push(
            words.deep_view()[i as int],
        ));
        i += 1;
    }
    assert(words.deep_view().take(words.deep_view().len() as int) =~= words.deep_view());
    let ghost mid = r.deep_view();
    r.push(String::from_str(path));
    assert(r.deep_view() =~= mid.push(path@));
    assert(head =~= seq!["-c"@, "-o"@, spec_object_path(build_dir@, path@), "-I"@, include_dir@]);
    assert(r.deep_view() =~= spec_compile_args(ccargs@, include_dir@, build_dir@, path@));
    r
}

/// The compiler invocation for one source as it is shown to the user:
/// `<compiler> -c -o <object> -I <include_dir> <ccargs> <path>`.
pub open spec fn spec_compile_command_line(compiler: Seq<char>, ccargs: Seq<char>, include_dir: Seq<char>, build_dir: Seq<char>, path: Seq<char>) -> Seq<char> {
    compiler + " -c -o "@ + spec_object_path(build_dir, path) + " -I "@ + include_dir + " "@ + ccargs
        + " "@ + path
}

pub fn compile_command_line(compiler: &str, ccargs: &str, include_dir: &str, build_dir: &str, path: &str) -> (r: String)
    ensures
        r@ == spec_compile_command_line(compiler@, ccargs@, include_dir@, build_dir@, path@),
{
    let mut r = String::from_str(compiler);
    r.append(" -c -o ");
    let obj = object_path(build_dir, path);
    r.append(obj.as_str());
    r.append(" -I ");
    r.append(include_dir);
    r.append(" ");
    r.append(ccargs);
    r.append(" ");
    r.append(path);
    r
}

/// The `compile_commands.json` entry for `source`: the object file it compiles
/// to, and the command `<compiler> -o <object> -c <source> -I <include> <ccargs> <ldargs>`.
pub open spec fn spec_compile_commands_entry(config: Config, source: Seq<char>) -> (Seq<char>, Seq<char>) {
    let output = spec_object_path(config.field(ConfigKey::Build), source);
    (
        output,
        config.field(ConfigKey::Compiler) + " -o "@ + output + " -c "@ + source + " -I "@
            + config.field(ConfigKey::Include) + " "@ + config.field(ConfigKey::Ccargs) + " "@
            + config.field(ConfigKey::Ldargs),
    )
}

pub fn compile_commands_entry(config: &Config, source: &str) -> (r: (String, String))
    ensures
        (r.0@, r.1@) == spec_compile_commands_entry(*config, source@),
{
    let output = object_path(config.build.as_str(), source);
    let mut command = config.compiler.clone();
    command.append(" -o ");
    command.append(output.as_str());
    command.append(" -c ");
    command.append(source);
    command.append(" -I ");
    command.append(config.include_dir.as_str());
    command.append(" ");
    command.append(config.ccargs.as_str());
    command.append(" ");
    command.append(config.ldargs.as_str());
    (output, command)
}

/// The pieces of `parts` with `sep` between each two.
pub open spec fn spec_join(parts: Seq<Seq<char>>, sep: Seq<char>) -> Seq<char>
    decreases parts.len(),
{
    if parts.len() == 0 {
        Seq::empty()
    } else if parts.len() == 1 {
        parts[0]
    } else {
        spec_join(parts.drop_last(), sep) + sep + parts.last()
    }
}

/// The strings of `parts` joined by single spaces.
pub fn join_spaced(parts: &Vec<String>) -> (r: String)
    ensures
        r@ == spec_join(parts.deep_view(), " "@),
{
    let ghost ps = parts.deep_view();
    let mut r = String::new();
    let mut i: usize = 0;
    assert(ps.take(0).len() == 0);
    while i < parts.len()
        invariant
            ps == parts.deep_view(),
            i <= ps.len(),
            r@ == spec_join(ps.take(i as int), " "@),
        decreases ps.len() - i,
    {
        assert(ps.take(i + 1).drop_last() =~= ps.take(i as int));
        if i > 0 {
            r.append(" ");
        }
        r.append(parts[i].as_str());
        proof {
            if i == 0 {
                assert(r@ =~= ps.take(1)[0]);
            }
        }
        i += 1;
    }
    assert(ps.take(ps.len() as int) =~= ps);
    r
}

/// The path of the linked program: `main` in `build_dir`.
pub open spec fn spec_program_path(build_dir: Seq<char>) -> Seq<char> {
    join_path(build_dir, "main"@)
}

/// The linker arguments: `-o <program>`, the objects, then the words of `ldargs`.
pub open spec fn spec_link_args(build_dir: Seq<char>, objects: Seq<Seq<char>>, ldargs: Seq<char>) -> Seq<Seq<char>> {
    seq!["-o"@, spec_program_path(build_dir)] + objects + spec_words(ldargs)
}

fn program_path(build_dir: &str) -> (r: String)
    ensures
        r@ == spec_program_path(build_dir@),
{
    let mut r = String::from_str(build_dir);
    r.append("/");
    r.append("main");
    proof {
        reveal_strlit("/");
    }
    assert(r@ =~= spec_program_path(build_dir@));
    r
}

pub fn link_arguments(build_dir: &str, objects: &Vec<String>, ldargs: &str) -> (r: Vec<String>)
    ensures
        r.deep_view() == spec_link_args(build_dir@, objects.deep_view(), ldargs@),
{
    let mut r: Vec<String> = Vec::new();
    r.push(String::from_str("-o"));
    r.push(program_path(build_dir));
    let ghost head = r.deep_view();
    assert(head =~= seq!["-o"@, spec_program_path(build_dir@)]);
    let mut i: usize = 0;
    while i < objects.len()
        invariant
            i <= objects@.len(),
            r.deep_view() == head + objects.deep_view().take(i as int),
        decreases objects@.len() - i,
    {
        let ghost old_r = r.deep_view();
        r.push(objects[i].clone());
        assert(r.deep_view() =~= old_r.push(objects.deep_view()[i as int]));
        assert(head + objects.deep_view().take(i + 1) =~= (head + objects.deep_view().take(
            i as int,
        )).push(objects.deep_view()[i as int]));
        i += 1;
    }
    assert(objects.deep_view().take(objects.deep_view().len() as int) =~= objects.deep_view());
    let ghost mid = r.deep_view();
    let ld = to_chars(ldargs);
    let words = split_whitespace(ld.as_slice());
    let mut k: usize = 0;
    while k < words.len()
        invariant
            k <= words@.len(),
            r.deep_view() == mid + words.deep_view().take(k as int),
        decreases words@.len() - k,
    {
        let ghost old_r = r.deep_view();
        let w = chars_to_string(words[k].as_slice());
        assert(w@ == words.deep_view()[k as int]);
        r.push(w);
        assert(r.deep_view() =~= old_r.push(words.deep_view()[k as int]));
        assert(mid + words.deep_view().take(k + 1) =~= (mid + words.deep_view().take(k as int)).push(
            words.deep_view()[k as int],
        ));
        k += 1;
    }
    assert(words.deep_view().take(words.deep_view().len() as int) =~= words.deep_view());
    assert(r.deep_view() =~= spec_link_args(build_dir@, objects.deep_view(), ldargs@));
    r
}

/// The linker invocation as it is shown to the user:
/// `<compiler> -o <program> <objects joined by spaces> <ldargs>`.
pub open spec fn spec_link_command_line(compiler: Seq<char>, build_dir: Seq<char>, objects: Seq<Seq<char>>, ldargs: Seq<char>) -> Seq<char> {
    compiler + " -o "@ + spec_program_path(build_dir) + " "@ + spec_join(objects, " "@) + " "@ + ldargs
}

pub fn link_command_line(compiler: &str, build_dir: &str, objects: &Vec<String>, ldargs: &str) -> (r: String)
    ensures
        r@ == spec_link_command_line(compiler@, build_dir@, objects.deep_view(), ldargs@),
{
    let mut r = String::from_str(compiler);
    r.append(" -o ");
    let program = program_path(build_dir);
    r.append(program.as_str());
    r.append(" ");
    let joined = join_spaced(objects);
    r.append(joined.as_str());
    r.append(" ");
    r.append(ldargs);
    r
}

proof fn lemma_push_contains(s: Seq<Seq<char>>, y: Seq<char>)
    ensures
        forall|x: Seq<char>| #[trigger] s.push(y).contains(x) <==> s.contains(x) || x == y,
{
    assert forall|x: Seq<char>| #[trigger] s.push(y).contains(x) <==> s.contains(x) || x == y by {
        if s.push(y).contains(x) {
            let k = choose|k: int| 0 <= k < s.push(y).len() && s.push(y)[k] == x;
            if k < s.len() {
                assert(s[k] == x);
            }
        }
        if s.contains(x) {
            let k = choose|k: int| 0 <= k < s.len() && s[k] == x;
            assert(s.push(y)[k] == x);
        }
        if x == y {
            assert(s.push(y)[s.len() as int] == x);
        }
    }
}

fn contains_string(v: &Vec<String>, x: &String) -> (r: bool)
    ensures
        r == v.deep_view().contains(x@),
{
    let mut i: usize = 0;
    while i < v.len()
        invariant
            i <= v@.len(),
            forall|j: int| 0 <= j < i ==> v.deep_view()[j] != x@,
        decreases v@.len() - i,
    {
        if v[i] == *x {
            assert(v.deep_view()[i as int] == x@);
            return true;
        }
        i += 1;
    }
    false
}

/// The sources to compile: those modified, those that depend on a modified
/// header, and those whose object file is missing.
pub open spec fn needs_compiling(all_sources: Seq<Seq<char>>, modified: Seq<Seq<char>>, header_dependents: Seq<Seq<char>>, object_exists: Seq<bool>, x: Seq<char>) -> bool {
    ||| modified.contains(x)
    ||| header_dependents.contains(x)
    ||| exists|i: int| 0 <= i < all_sources.len() && all_sources[i] == x && !object_exists[i]
}

/// The sources to compile, each once; `object_exists[i]` tells whether the
/// object file of `all_sources[i]` is there.
pub fn plan_compilation(all_sources: &Vec<String>, modified: &Vec<String>, header_dependents: &Vec<String>, object_exists: &Vec<bool>) -> (r: Vec<String>)
    requires
        all_sources@.len() == object_exists@.len(),
    ensures
        r.deep_view().no_duplicates(),
        forall|x: Seq<char>|
            #[trigger] r.deep_view().contains(x) <==> needs_compiling(
                all_sources.deep_view(),
                modified.deep_view(),
                header_dependents.deep_view(),
                object_exists@,
                x,
            ),
        forall|x: Seq<char>| #[trigger] modified.deep_view().contains(x) ==> r.deep_view().contains(x),
        forall|x: Seq<char>|
            #[trigger] header_dependents.deep_view().contains(x) ==> r.deep_view().contains(x),
        forall|i: int|
            0 <= i < all_sources.deep_view().len() && !object_exists@[i] ==> r.deep_view().contains(
                #[trigger] all_sources.deep_view()[i],
            ),
        forall|x: Seq<char>|
            #[trigger] r.deep_view().contains(x) ==> modified.deep_view().contains(x)
                || header_dependents.deep_view().contains(x) || exists|i: int|
                0 <= i < all_sources.deep_view().len() && all_sources.deep_view()[i] == x
                    && !object_exists@[i],
{
    let ghost all = all_sources.deep_view();
    let ghost md = modified.deep_view();
    let ghost hd = header_dependents.deep_view();
    let mut r: Vec<String> = Vec::new();
    let mut i: usize = 0;
    while i < modified.len()
        invariant
            md == modified.deep_view(),
            i <= md.len(),
            r.deep_view().no_duplicates(),
            forall|x: Seq<char>| #[trigger] r.deep_view().contains(x) <==> md.take(i as int).contains(x),
        decreases md.len() - i,
    {
        let ghost old_r = r.deep_view();
        assert(md.take(i + 1) =~= md.take(i as int).push(md[i as int]));
        proof {
            lemma_push_contains(md.take(i as int), md[i as int]);
            lemma_push_contains(old_r, md[i as int]);
        }
        if !contains_string(&r, &modified[i]) {
            r.push(modified[i].clone());
            assert(r.deep_view() =~= old_r.push(md[i as int]));
        }
        i += 1;
    }
    assert(md.take(md.len() as int) =~= md);
    let mut i: usize = 0;
    while i < header_dependents.len()
        invariant
            md == modified.deep_view(),
            hd == header_dependents.deep_view(),
            i <= hd.len(),
            r.deep_view().no_duplicates(),
            forall|x: Seq<char>|
                #[trigger] r.deep_view().contains(x) <==> md.contains(x) || hd.take(i as int).contains(x),
        decreases hd.len() - i,
    {
        let ghost old_r = r.deep_view();
        assert(hd.take(i + 1) =~= hd.take(i as int).push(hd[i as int]));
        proof {
            lemma_push_contains(hd.take(i as int), hd[i as int]);
            lemma_push_contains(old_r, hd[i as int]);
        }
        if !contains_string(&r, &header_dependents[i]) {
            r.push(header_dependents[i].clone());
            assert(r.deep_view() =~= old_r.push(hd[i as int]));
        }
        i += 1;
    }
    assert(hd.take(hd.len() as int) =~= hd);
    let mut i: usize = 0;
    while i < all_sources.len()
        invariant
            all_sources@.len() == object_exists@.len(),
            all == all_sources.deep_view(),
            md == modified.deep_view(),
            hd == header_dependents.deep_view(),
            i <= all.len(),
            r.deep_view().no_duplicates(),
            forall|x: Seq<char>|
                #[trigger] r.deep_view().contains(x) <==> md.contains(x) || hd.contains(x) || exists|j: int|
                    0 <= j < i && all[j] == x && !object_exists@[j],
        decreases all.len() - i,
    {
        let ghost old_r = r.deep_view();
        if !object_exists[i] && !contains_string(&r, &all_sources[i]) {
            r.push(all_sources[i].clone());
            assert(r.deep_view() =~= old_r.push(all[i as int]));
        }
        assert forall|x: Seq<char>|
            #[trigger] r.deep_view().contains(x) <==> md.contains(x) || hd.contains(x) || exists|j: int|
                0 <= j < i + 1 && all[j] == x && !object_exists@[j] by {
            if r.deep_view().contains(x) && !old_r.contains(x) {
                assert(x == all[i as int]);
            }
            if exists|j: int| 0 <= j < i + 1 && all[j] == x && !object_exists@[j] {
                let j = choose|j: int| 0 <= j < i + 1 && all[j] == x && !object_exists@[j];
                if j == i {
                    if !old_r.contains(x) {
                        assert(r.deep_view()[r.deep_view().len() - 1] == x);
                    }
                }
            }
            if old_r.contains(x) {
                let k = choose|k: int| 0 <= k < old_r.len() && old_r[k] == x;
                assert(r.deep_view()[k] == x);
            }
        }
        i += 1;
    }
    r
}

/// What is recompiled: every modified source, every source that includes a
/// modified header, every source whose object file is missing, and nothing else.
pub proof fn lemma_plan_exactly(
    all_sources: Seq<Seq<char>>,
    modified: Seq<Seq<char>>,
    header_dependents: Seq<Seq<char>>,
    object_exists: Seq<bool>,
    x: Seq<char>,
)
    ensures
        modified.contains(x) ==> needs_compiling(all_sources, modified, header_dependents, object_exists, x),
        header_dependents.contains(x) ==> needs_compiling(all_sources, modified, header_dependents, object_exists, x),
        (exists|i: int| 0 <= i < all_sources.len() && all_sources[i] == x && !object_exists[i])
            ==> needs_compiling(all_sources, modified, header_dependents, object_exists, x),
        needs_compiling(all_sources, modified, header_dependents, object_exists, x) ==> modified.contains(x)
            || header_dependents.contains(x) || exists|i: int|
            0 <= i < all_sources.len() && all_sources[i] == x && !object_exists[i],
{
}

} // verus!
