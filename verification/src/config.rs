//! The build configuration: a text of `attribute value` lines, `;` comments
//! and defaults for every attribute that is not set.

use vstd::prelude::*;

use crate::text::{
    find_from, unicode_white_space, lemma_find_from_is, chars_eq, chars_to_string, spec_lines, spec_split_once, spec_trim_start, split_lines,
    split_once, to_chars, trim_start_index,
};

verus! {

/// The attributes a configuration can set.
#[derive(Clone, Copy, Debug)]
pub enum ConfigKey {
    Entrypoint,
    Source,
    Include,
    Build,
    Ccargs,
    Ldargs,
    Compiler,
    SourceExt,
    HeaderExt,
}

/// The name an attribute goes by in the configuration text.
pub open spec fn key_name(k: ConfigKey) -> Seq<char> {
    match k {
        ConfigKey::Entrypoint => "entrypoint"@,
        ConfigKey::Source => "source"@,
        ConfigKey::Include => "include"@,
        ConfigKey::Build => "build"@,
        ConfigKey::Ccargs => "ccargs"@,
        ConfigKey::Ldargs => "ldargs"@,
        ConfigKey::Compiler => "compiler"@,
        ConfigKey::SourceExt => "source_ext"@,
        ConfigKey::HeaderExt => "header_ext"@,
    }
}

/// The value an attribute has when no line sets it.
pub open spec fn default_value(k: ConfigKey) -> Seq<char> {
    match k {
        ConfigKey::Entrypoint => "main"@,
        ConfigKey::Source => "./src/"@,
        ConfigKey::Include => "./src/include/"@,
        ConfigKey::Build => "./build/"@,
        ConfigKey::Ccargs => ""@,
        ConfigKey::Ldargs => ""@,
        ConfigKey::Compiler => "gcc"@,
        ConfigKey::SourceExt => "c"@,
        ConfigKey::HeaderExt => "h"@,
    }
}

/// The attribute a name stands for, if any.
pub open spec fn parse_key(name: Seq<char>) -> Option<ConfigKey> {
    if name == key_name(ConfigKey::Entrypoint) {
        Some(ConfigKey::Entrypoint)
    } else if name == key_name(ConfigKey::Source) {
        Some(ConfigKey::Source)
    } else if name == key_name(ConfigKey::Include) {
        Some(ConfigKey::Include)
    } else if name == key_name(ConfigKey::Build) {
        Some(ConfigKey::Build)
    } else if name == key_name(ConfigKey::Ccargs) {
        Some(ConfigKey::Ccargs)
    } else if name == key_name(ConfigKey::Ldargs) {
        Some(ConfigKey::Ldargs)
    } else if name == key_name(ConfigKey::Compiler) {
        Some(ConfigKey::Compiler)
    } else if name == key_name(ConfigKey::SourceExt) {
        Some(ConfigKey::SourceExt)
    } else if name == key_name(ConfigKey::HeaderExt) {
        Some(ConfigKey::HeaderExt)
    } else {
        None
    }
}

/// A comment line: its first character after leading whitespace is `;`.
pub open spec fn is_comment(line: Seq<char>) -> bool {
    spec_trim_start(line).len() > 0 && spec_trim_start(line)[0] == ';'
}

/// A blank line: nothing but whitespace.
pub open spec fn is_blank(line: Seq<char>) -> bool {
    spec_trim_start(line).len() == 0
}

/// The attribute and value a line sets: the name before its first space and
/// everything after that space. Comment lines set nothing.
pub open spec fn line_setting(line: Seq<char>) -> Option<(ConfigKey, Seq<char>)> {
    if is_comment(line) {
        None
    } else {
        match spec_split_once(line, ' ') {
            Some((name, value)) => match parse_key(name) {
                Some(k) => Some((k, value)),
                None => None,
            },
            None => None,
        }
    }
}

/// A line that is accepted: not blank, and either a comment or a setting of a
/// known attribute.
pub open spec fn line_valid(line: Seq<char>) -> bool {
    !is_blank(line) && (is_comment(line) || line_setting(line) is Some)
}

/// Every line of the text is accepted.
pub open spec fn config_valid(raw: Seq<char>) -> bool {
    forall|i: int| 0 <= i < spec_lines(raw).len() ==> line_valid(#[trigger] spec_lines(raw)[i])
}

/// The value of attribute `k` after the given lines: that of the last line
/// that sets `k`, or the default when none does.
pub open spec fn config_value(lines: Seq<Seq<char>>, k: ConfigKey) -> Seq<char>
    decreases lines.len(),
{
    if lines.len() == 0 {
        default_value(k)
    } else {
        match line_setting(lines.last()) {
            Some((k2, v)) if k2 == k => v,
            _ => config_value(lines.drop_last(), k),
        }
    }
}

/// Why a configuration text is refused, with the index of the offending line.
#[derive(Debug)]
pub enum ConfigError {
    /// A line holds nothing but whitespace.
    BlankLine { line: usize },
    /// A line that is no comment holds no space to end the attribute's name.
    MissingValue { line: usize },
    /// A line names an attribute that does not exist.
    UnknownAttribute { line: usize, attribute: String },
}

/// Line `i` is the first that is not accepted.
pub open spec fn first_invalid(lines: Seq<Seq<char>>, i: int) -> bool {
    &&& 0 <= i < lines.len()
    &&& !line_valid(lines[i])
    &&& forall|j: int| 0 <= j < i ==> line_valid(#[trigger] lines[j])
}

/// `e` describes what is wrong with the first line that is not accepted.
pub open spec fn describes(lines: Seq<Seq<char>>, e: ConfigError) -> bool {
    match e {
        ConfigError::BlankLine { line } => first_invalid(lines, line as int) && is_blank(
            lines[line as int],
        ),
        ConfigError::MissingValue { line } => {
            &&& first_invalid(lines, line as int)
            &&& !is_blank(lines[line as int])
            &&& spec_split_once(lines[line as int], ' ') is None
        },
        ConfigError::UnknownAttribute { line, attribute } => {
            &&& first_invalid(lines, line as int)
            &&& !is_blank(lines[line as int])
            &&& !is_comment(lines[line as int])
            &&& spec_split_once(lines[line as int], ' ') matches Some((name, _))
            &&& name == attribute@
            &&& parse_key(name) is None
        },
    }
}

#[derive(Debug)]
pub struct Config {
    pub entrypoint: String,
    pub source: String,
    pub include_dir: String,
    pub build: String,
    pub ccargs: String,
    pub ldargs: String,
    pub compiler: String,
    pub source_ext: String,
    pub header_ext: String,
}

/// The attribute that `name` stands for, if any.
pub fn key_of(name: &[char]) -> (r: Option<ConfigKey>)
    ensures
        r == parse_key(name@),
        forall|k: ConfigKey| name@ == #[trigger] key_name(k) ==> r == Some(k),
{
    proof {
        assert forall|k: ConfigKey| name@ == #[trigger] key_name(k) implies parse_key(name@) == Some(k) by {
            lemma_every_key_recognised(k);
        }
    }
    if chars_eq(name, to_chars("entrypoint").as_slice()) {
        Some(ConfigKey::Entrypoint)
    } else if chars_eq(name, to_chars("source").as_slice()) {
        Some(ConfigKey::Source)
    } else if chars_eq(name, to_chars("include").as_slice()) {
        Some(ConfigKey::Include)
    } else if chars_eq(name, to_chars("build").as_slice()) {
        Some(ConfigKey::Build)
    } else if chars_eq(name, to_chars("ccargs").as_slice()) {
        Some(ConfigKey::Ccargs)
    } else if chars_eq(name, to_chars("ldargs").as_slice()) {
        Some(ConfigKey::Ldargs)
    } else if chars_eq(name, to_chars("compiler").as_slice()) {
        Some(ConfigKey::Compiler)
    } else if chars_eq(name, to_chars("source_ext").as_slice()) {
        Some(ConfigKey::SourceExt)
    } else if chars_eq(name, to_chars("header_ext").as_slice()) {
        Some(ConfigKey::HeaderExt)
    } else {
        None
    }
}

impl Config {
    /// The value of attribute `k`.
    pub open spec fn field(&self, k: ConfigKey) -> Seq<char> {
        match k {
            ConfigKey::Entrypoint => self.entrypoint@,
            ConfigKey::Source => self.source@,
            ConfigKey::Include => self.include_dir@,
            ConfigKey::Build => self.build@,
            ConfigKey::Ccargs => self.ccargs@,
            ConfigKey::Ldargs => self.ldargs@,
            ConfigKey::Compiler => self.compiler@,
            ConfigKey::SourceExt => self.source_ext@,
            ConfigKey::HeaderExt => self.header_ext@,
        }
    }

    /// The configuration with every attribute at its default.
    pub fn defaults() -> (r: Self)
        ensures
            forall|k: ConfigKey| #[trigger] r.field(k) == default_value(k),
    {
        Config {
            entrypoint: String::from_str("main"),
            source: String::from_str("./src/"),
            include_dir: String::from_str("./src/include/"),
            build: String::from_str("./build/"),
            ccargs: String::from_str(""),
            ldargs: String::from_str(""),
            compiler: String::from_str("gcc"),
            source_ext: String::from_str("c"),
            header_ext: String::from_str("h"),
        }
    }

    fn set(&mut self, k: ConfigKey, value: String)
        ensures
            final(self).field(k) == value@,
            forall|k2: ConfigKey| k2 != k ==> #[trigger] final(self).field(k2) == old(self).field(
                k2,
            ),
    {
        match k {
            ConfigKey::Entrypoint => self.entrypoint = value,
            ConfigKey::Source => self.source = value,
            ConfigKey::Include => self.include_dir = value,
            ConfigKey::Build => self.build = value,
            ConfigKey::Ccargs => self.ccargs = value,
            ConfigKey::Ldargs => self.ldargs = value,
            ConfigKey::Compiler => self.compiler = value,
            ConfigKey::SourceExt => self.source_ext = value,
            ConfigKey::HeaderExt => self.header_ext = value,
        }
    }

    /// The configuration that the text `raw` describes: each attribute has the
    /// value of the last line that sets it, or its default. Every line must be
    /// accepted (see `check`).
    pub fn from(raw: String) -> (r: Self)
        requires
            config_valid(raw@),
        ensures
            forall|k: ConfigKey| #[trigger] r.field(k) == config_value(spec_lines(raw@), k),
    {
        let mut config = Config::defaults();
        let chars = to_chars(raw.as_str());
        let lines = split_lines(chars.as_slice());
        let ghost ls = spec_lines(raw@);
        let mut i: usize = 0;
        assert(ls.take(0) =~= Seq::<Seq<char>>::empty());
        while i < lines.len()
            invariant
                lines.deep_view() == ls,
                ls == spec_lines(raw@),
                config_valid(raw@),
                i <= ls.len(),
                forall|k: ConfigKey| #[trigger] config.field(k) == config_value(ls.take(i as int), k),
            decreases ls.len() - i,
        {
            let line = &lines[i];
            assert(line@ == ls[i as int]);
            assert(line_valid(ls[i as int]));
            assert(ls.take(i + 1).drop_last() =~= ls.take(i as int));
            assert(ls.take(i + 1).last() == ls[i as int]);
            let t = trim_start_index(line.as_slice(), 0, line.len());
            assert(line@.subrange(0, line@.len() as int) =~= line@);
            assert(spec_trim_start(line@) == line@.subrange(t as int, line@.len() as int));
            if line[t] != ';' {
                assert(spec_trim_start(line@)[0] == line@[t as int]);
                if let Some((name, value)) = split_once(line.as_slice(), ' ') {
                    if let Some(k) = key_of(name.as_slice()) {
                        config.set(k, chars_to_string(value.as_slice()));
                    }
                }
            } else {
                assert(spec_trim_start(line@)[0] == line@[t as int]);
            }
            i += 1;
        }
        assert(ls.take(ls.len() as int) =~= ls);
        config
    }

    /// Whether every line of `raw` is accepted; if not, what is wrong with the
    /// first line that is not.
    pub fn check(raw: &str) -> (r: Result<(), ConfigError>)
        ensures
            r is Ok <==> config_valid(raw@),
            r matches Err(e) ==> describes(spec_lines(raw@), e),
    {
        let chars = to_chars(raw);
        let lines = split_lines(chars.as_slice());
        let ghost ls = spec_lines(raw@);
        let mut i: usize = 0;
        while i < lines.len()
            invariant
                lines.deep_view() == ls,
                ls == spec_lines(raw@),
                i <= ls.len(),
                forall|j: int| 0 <= j < i ==> line_valid(#[trigger] ls[j]),
            decreases ls.len() - i,
        {
            let line = &lines[i];
            assert(line@ == ls[i as int]);
            let t = trim_start_index(line.as_slice(), 0, line.len());
            assert(line@.subrange(0, line@.len() as int) =~= line@);
            assert(spec_trim_start(line@) == line@.subrange(t as int, line@.len() as int));
            if t == line.len() {
                return Err(ConfigError::BlankLine { line: i });
            }
            assert(spec_trim_start(line@)[0] == line@[t as int]);
            if line[t] != ';' {
                match split_once(line.as_slice(), ' ') {
                    None => {
                        return Err(ConfigError::MissingValue { line: i });
                    },
                    Some((name, _value)) => {
                        if key_of(name.as_slice()).is_none() {
                            let attribute = chars_to_string(name.as_slice());
                            return Err(ConfigError::UnknownAttribute { line: i, attribute });
                        }
                    },
                }
            }
            i += 1;
        }
        Ok(())
    }

    /// The configuration that `raw` describes, or what is wrong with its first
    /// line that is not accepted.
    pub fn parse(raw: String) -> (r: Result<Self, ConfigError>)
        ensures
            r is Ok <==> config_valid(raw@),
            r matches Ok(c) ==> forall|k: ConfigKey| #[trigger] c.field(k) == config_value(
                spec_lines(raw@),
                k,
            ),
            r matches Err(e) ==> describes(spec_lines(raw@), e),
    {
        match Config::check(raw.as_str()) {
            Ok(()) => Ok(Config::from(raw)),
            Err(e) => Err(e),
        }
    }
}

/// An attribute that no line sets keeps its default.
pub proof fn lemma_unset_is_default(lines: Seq<Seq<char>>, k: ConfigKey)
    requires
        forall|i: int|
            0 <= i < lines.len() ==> !(#[trigger] line_setting(lines[i]) matches Some((k2, _)) && k2
                == k),
    ensures
        config_value(lines, k) == default_value(k),
    decreases lines.len(),
{
    if lines.len() > 0 {
        assert(forall|i: int| 0 <= i < lines.len() - 1 ==> lines.drop_last()[i] == lines[i]);
        assert(!(line_setting(lines[lines.len() - 1]) matches Some((k2, _)) && k2 == k));
        lemma_unset_is_default(lines.drop_last(), k);
    }
}

/// The last line that sets an attribute decides its value, whatever the lines
/// before it set.
pub proof fn lemma_last_setting_wins(lines: Seq<Seq<char>>, line: Seq<char>, k: ConfigKey, v: Seq<char>)
    requires
        line_setting(line) == Some((k, v)),
    ensures
        config_value(lines.push(line), k) == v,
{
    assert(lines.push(line).last() == line);
}

/// A line that sets one attribute leaves every other attribute as it was.
pub proof fn lemma_setting_leaves_others(lines: Seq<Seq<char>>, line: Seq<char>, k: ConfigKey, v: Seq<char>, other: ConfigKey)
    requires
        line_setting(line) == Some((k, v)),
        other != k,
    ensures
        config_value(lines.push(line), other) == config_value(lines, other),
{
    assert(lines.push(line).drop_last() =~= lines);
}

/// Comment lines change nothing.
pub proof fn lemma_comment_changes_nothing(lines: Seq<Seq<char>>, line: Seq<char>, k: ConfigKey)
    requires
        is_comment(line),
    ensures
        config_value(lines.push(line), k) == config_value(lines, k),
{
    assert(lines.push(line).drop_last() =~= lines);
}

/// The first character of each name is a letter, and no name holds a space.
proof fn lemma_key_name_shape(k: ConfigKey)
    ensures
        key_name(k).len() > 0,
        !unicode_white_space(key_name(k)[0]),
        key_name(k)[0] != ';',
        forall|j: int| 0 <= j < key_name(k).len() ==> #[trigger] key_name(k)[j] != ' ',
{
    reveal_strlit("entrypoint");
    reveal_strlit("source");
    reveal_strlit("include");
    reveal_strlit("build");
    reveal_strlit("ccargs");
    reveal_strlit("ldargs");
    reveal_strlit("compiler");
    reveal_strlit("source_ext");
    reveal_strlit("header_ext");
    let n = key_name(k);
    assert forall|j: int| 0 <= j < n.len() implies #[trigger] n[j] != ' ' by {
        match k {
            ConfigKey::Entrypoint => assert(0 <= j < 10),
            ConfigKey::Source => assert(0 <= j < 6),
            ConfigKey::Include => assert(0 <= j < 7),
            ConfigKey::Build => assert(0 <= j < 5),
            ConfigKey::Ccargs => assert(0 <= j < 6),
            ConfigKey::Ldargs => assert(0 <= j < 6),
            ConfigKey::Compiler => assert(0 <= j < 8),
            ConfigKey::SourceExt => assert(0 <= j < 10),
            ConfigKey::HeaderExt => assert(0 <= j < 10),
        }
    }
}

/// Distinct attributes have distinct names.
proof fn lemma_names_distinct(a: ConfigKey, b: ConfigKey)
    requires
        a != b,
    ensures
        key_name(a) != key_name(b),
{
    reveal_strlit("entrypoint");
    reveal_strlit("source");
    reveal_strlit("include");
    reveal_strlit("build");
    reveal_strlit("ccargs");
    reveal_strlit("ldargs");
    reveal_strlit("compiler");
    reveal_strlit("source_ext");
    reveal_strlit("header_ext");
    assert(key_name(a).len() != key_name(b).len() || key_name(a)[0] != key_name(b)[0]);
}

/// Every attribute is recognised by its name, and by no other attribute's.
pub proof fn lemma_every_key_recognised(k: ConfigKey)
    ensures
        parse_key(key_name(k)) == Some(k),
{
    if k != ConfigKey::Entrypoint {
        lemma_names_distinct(k, ConfigKey::Entrypoint);
    }
    if k != ConfigKey::Source {
        lemma_names_distinct(k, ConfigKey::Source);
    }
    if k != ConfigKey::Include {
        lemma_names_distinct(k, ConfigKey::Include);
    }
    if k != ConfigKey::Build {
        lemma_names_distinct(k, ConfigKey::Build);
    }
    if k != ConfigKey::Ccargs {
        lemma_names_distinct(k, ConfigKey::Ccargs);
    }
    if k != ConfigKey::Ldargs {
        lemma_names_distinct(k, ConfigKey::Ldargs);
    }
    if k != ConfigKey::Compiler {
        lemma_names_distinct(k, ConfigKey::Compiler);
    }
    if k != ConfigKey::SourceExt {
        lemma_names_distinct(k, ConfigKey::SourceExt);
    }
    if k != ConfigKey::HeaderExt {
        lemma_names_distinct(k, ConfigKey::HeaderExt);
    }
}

/// The names by which the attributes are documented.
pub proof fn lemma_documented_names()
    ensures
        parse_key("entrypoint"@) == Some(ConfigKey::Entrypoint),
        parse_key("source"@) == Some(ConfigKey::Source),
        parse_key("include"@) == Some(ConfigKey::Include),
        parse_key("build"@) == Some(ConfigKey::Build),
        parse_key("ccargs"@) == Some(ConfigKey::Ccargs),
        parse_key("ldargs"@) == Some(ConfigKey::Ldargs),
        parse_key("compiler"@) == Some(ConfigKey::Compiler),
        parse_key("source_ext"@) == Some(ConfigKey::SourceExt),
        parse_key("header_ext"@) == Some(ConfigKey::HeaderExt),
{
    lemma_every_key_recognised(ConfigKey::Entrypoint);
    lemma_every_key_recognised(ConfigKey::Source);
    lemma_every_key_recognised(ConfigKey::Include);
    lemma_every_key_recognised(ConfigKey::Build);
    lemma_every_key_recognised(ConfigKey::Ccargs);
    lemma_every_key_recognised(ConfigKey::Ldargs);
    lemma_every_key_recognised(ConfigKey::Compiler);
    lemma_every_key_recognised(ConfigKey::SourceExt);
    lemma_every_key_recognised(ConfigKey::HeaderExt);
}

/// A line `<name> <value>` is accepted and sets the attribute of that name to
/// the value, whatever the value holds.
pub proof fn lemma_setting_line(k: ConfigKey, v: Seq<char>)
    ensures
        line_valid(key_name(k) + seq![' '] + v),
        line_setting(key_name(k) + seq![' '] + v) == Some((k, v)),
        config_value(seq![key_name(k) + seq![' '] + v], k) == v,
{
    let n = key_name(k);
    let line = n + seq![' '] + v;
    lemma_key_name_shape(k);
    lemma_every_key_recognised(k);
    assert(line[0] == n[0]);
    assert(spec_trim_start(line) == line);
    lemma_find_from_is(line, ' ', 0, n.len() as int);
    assert(line.take(n.len() as int) =~= n);
    assert(line.skip(n.len() as int + 1) =~= v);
    let ls = seq![line];
    assert(ls.drop_last() =~= Seq::<Seq<char>>::empty());
}

} // verus!
