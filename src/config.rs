use vstd::prelude::*;

use crate::tags::is_word;
use crate::text::{
    free_of, lemma_split_concat, lemma_split_free, lemma_split_on_nonempty, split_on, split_str,
    views,
};

verus! {

/// Where the tool keeps its files, and its user settings. Paths are held as text.
#[derive(Debug)]
pub struct Config {
    pub db_path: String,
    pub log_path: String,
    pub note_path: String,
    pub misc_path: String,
    pub todo_path: String,
    pub journal_path: String,
    pub code_path: String,
    pub theme: String,
    pub editor: String,
}

/// What a `Config` holds, as a mathematical value.
pub ghost struct ConfigView {
    pub db_path: Seq<char>,
    pub log_path: Seq<char>,
    pub note_path: Seq<char>,
    pub misc_path: Seq<char>,
    pub todo_path: Seq<char>,
    pub journal_path: Seq<char>,
    pub code_path: Seq<char>,
    pub theme: Seq<char>,
    pub editor: Seq<char>,
}

impl View for Config {
    type V = ConfigView;

    open spec fn view(&self) -> ConfigView {
        ConfigView {
            db_path: self.db_path@,
            log_path: self.log_path@,
            note_path: self.note_path@,
            misc_path: self.misc_path@,
            todo_path: self.todo_path@,
            journal_path: self.journal_path@,
            code_path: self.code_path@,
            theme: self.theme@,
            editor: self.editor@,
        }
    }
}

/// Why a configuration text was refused.
#[derive(Debug, Clone, Copy, PartialEq, Eq, Structural)]
pub enum ConfigError {
    /// A line has no `=`.
    MissingValue,
    /// A line names a key that the configuration does not have.
    UnknownKey,
}

/// `rel` below the directory `base`: a separator is put between them unless `base` is
/// empty or already ends with one.
pub open spec fn join_path(base: Seq<char>, rel: Seq<char>) -> Seq<char> {
    if base.len() == 0 {
        rel
    } else if base.last() == '/' {
        base + rel
    } else {
        base + seq!['/'] + rel
    }
}

/// The settings used where the configuration text says nothing, for the home directory `home`.
pub open spec fn default_spec(home: Seq<char>) -> ConfigView {
    ConfigView {
        db_path: join_path(home, ".cerebra/cerebra.db"@),
        log_path: join_path(home, ".cerebra/cerebra.log"@),
        note_path: join_path(home, "cerebra/notes"@),
        misc_path: join_path(home, "cerebra/misc"@),
        todo_path: join_path(home, "cerebra/todos"@),
        journal_path: join_path(home, "cerebra/code"@),
        code_path: join_path(home, "cerebra/code"@),
        theme: "dark"@,
        editor: "nvim"@,
    }
}

/// `path` begins with `prefix`.
pub open spec fn starts_with(path: Seq<char>, prefix: Seq<char>) -> bool {
    prefix.len() <= path.len() && path.subrange(0, prefix.len() as int) == prefix
}

/// A path given on the command line with its start expanded: `~` and `$HOME` (alone or
/// followed by `/`) stand for the home directory, a leading `./` for the current one; any
/// other path is kept as it is.
pub open spec fn expanded_path(path: Seq<char>, home: Seq<char>, cwd: Seq<char>) -> Seq<char> {
    if path == "~"@ || path == "$HOME"@ {
        join_path(home, Seq::empty())
    } else if starts_with(path, "~/"@) {
        join_path(home, path.subrange(2, path.len() as int))
    } else if starts_with(path, "$HOME/"@) {
        join_path(home, path.subrange(6, path.len() as int))
    } else if starts_with(path, "./"@) {
        join_path(cwd, path.subrange(2, path.len() as int))
    } else {
        path
    }
}

/// `key=value` followed by a line break.
pub open spec fn entry_line(key: Seq<char>, value: Seq<char>) -> Seq<char> {
    key + seq!['='] + value + seq!['\n']
}

/// The configuration as text: one `key=value` line per field, in a fixed order.
pub open spec fn config_text(c: ConfigView) -> Seq<char> {
    entry_line("db_path"@, c.db_path) + entry_line("log_path"@, c.log_path) + entry_line(
        "note_path"@,
        c.note_path,
    ) + entry_line("misc_path"@, c.misc_path) + entry_line("todo_path"@, c.todo_path)
        + entry_line("journal_path"@, c.journal_path) + entry_line("code_path"@, c.code_path)
        + entry_line("theme"@, c.theme) + entry_line("editor"@, c.editor)
}

/// A piece without its final carriage return, if it has one.
pub open spec fn strip_cr(p: Seq<char>) -> Seq<char> {
    if p.len() > 0 && p.last() == '\r' {
        p.drop_last()
    } else {
        p
    }
}

/// The lines of a text: pieces between line breaks; a line ended by a break loses a final
/// carriage return, and an empty piece after the last break is no line.
pub open spec fn lines_of(s: Seq<char>) -> Seq<Seq<char>> {
    let pieces = split_on(s, '\n');
    let ended = pieces.drop_last().map_values(|p: Seq<char>| strip_cr(p));
    if pieces.last().len() == 0 {
        ended
    } else {
        ended.push(pieces.last())
    }
}

/// The configuration with the field that `k` names set to `v`.
pub open spec fn set_key(c: ConfigView, k: Seq<char>, v: Seq<char>) -> Result<ConfigView, ConfigError> {
    if k == "db_path"@ {
        Ok(ConfigView { db_path: v, ..c })
    } else if k == "log_path"@ {
        Ok(ConfigView { log_path: v, ..c })
    } else if k == "note_path"@ {
        Ok(ConfigView { note_path: v, ..c })
    } else if k == "misc_path"@ {
        Ok(ConfigView { misc_path: v, ..c })
    } else if k == "todo_path"@ {
        Ok(ConfigView { todo_path: v, ..c })
    } else if k == "journal_path"@ {
        Ok(ConfigView { journal_path: v, ..c })
    } else if k == "code_path"@ {
        Ok(ConfigView { code_path: v, ..c })
    } else if k == "theme"@ {
        Ok(ConfigView { theme: v, ..c })
    } else if k == "editor"@ {
        Ok(ConfigView { editor: v, ..c })
    } else {
        Err(ConfigError::UnknownKey)
    }
}

/// The configuration after one line: the piece before the first `=` names the field, the
/// piece after it (up to a second `=`, if any) is its value.
pub open spec fn apply_line(c: ConfigView, line: Seq<char>) -> Result<ConfigView, ConfigError> {
    let parts = split_on(line, '=');
    if parts.len() < 2 {
        Err(ConfigError::MissingValue)
    } else {
        set_key(c, parts[0], parts[1])
    }
}

/// The configuration after the lines, in order; the first line refused decides the error.
pub open spec fn apply_lines(c: ConfigView, lines: Seq<Seq<char>>) -> Result<ConfigView, ConfigError>
    decreases lines.len(),
{
    if lines.len() == 0 {
        Ok(c)
    } else {
        match apply_lines(c, lines.drop_last()) {
            Err(e) => Err(e),
            Ok(c1) => apply_line(c1, lines.last()),
        }
    }
}

/// A value that the configuration text keeps as it is: no `=`, no line break, and no
/// final carriage return.
pub open spec fn plain_value(v: Seq<char>) -> bool {
    free_of(v, '=') && free_of(v, '\n') && !(v.len() > 0 && v.last() == '\r')
}

/// Every field of the configuration is a plain value.
pub open spec fn config_plain(c: ConfigView) -> bool {
    plain_value(c.db_path) && plain_value(c.log_path) && plain_value(c.note_path) && plain_value(
        c.misc_path,
    ) && plain_value(c.todo_path) && plain_value(c.journal_path) && plain_value(c.code_path)
        && plain_value(c.theme) && plain_value(c.editor)
}

/// `key=value`, without the line break.
pub open spec fn pair_line(key: Seq<char>, value: Seq<char>) -> Seq<char> {
    key + seq!['='] + value
}

/// The lines, each followed by a line break.
pub open spec fn joined(ls: Seq<Seq<char>>) -> Seq<char>
    decreases ls.len(),
{
    if ls.len() == 0 {
        Seq::empty()
    } else {
        ls[0] + seq!['\n'] + joined(ls.drop_first())
    }
}

/// The lines of the configuration text, in order.
pub open spec fn config_lines(c: ConfigView) -> Seq<Seq<char>> {
    seq![
        pair_line("db_path"@, c.db_path),
        pair_line("log_path"@, c.log_path),
        pair_line("note_path"@, c.note_path),
        pair_line("misc_path"@, c.misc_path),
        pair_line("todo_path"@, c.todo_path),
        pair_line("journal_path"@, c.journal_path),
        pair_line("code_path"@, c.code_path),
        pair_line("theme"@, c.theme),
        pair_line("editor"@, c.editor),
    ]
}

proof fn lemma_split_joined(ls: Seq<Seq<char>>)
    requires
        forall|i: int| 0 <= i < ls.len() ==> free_of(#[trigger] ls[i], '\n'),
    ensures
        split_on(joined(ls), '\n') == ls.push(Seq::<char>::empty()),
    decreases ls.len(),
{
    if ls.len() == 0 {
        assert(joined(ls) =~= Seq::<char>::empty());
        assert(ls.push(Seq::<char>::empty()) =~= seq![Seq::<char>::empty()]);
    } else {
        let rest = ls.drop_first();
        assert forall|i: int| 0 <= i < rest.len() implies free_of(#[trigger] rest[i], '\n') by {
            assert(rest[i] == ls[i + 1]);
        }
        lemma_split_joined(rest);
        lemma_split_concat(ls[0], joined(rest), '\n');
        lemma_split_free(ls[0], '\n');
        assert(seq![ls[0]] + rest.push(Seq::<char>::empty()) =~= ls.push(Seq::<char>::empty()));
    }
}

/// A `key=value` line of a plain key and value splits into the key and the value.
proof fn lemma_pair_line(key: Seq<char>, value: Seq<char>)
    requires
        free_of(key, '='),
        free_of(value, '='),
    ensures
        split_on(pair_line(key, value), '=') == seq![key, value],
{
    lemma_split_concat(key, value, '=');
    lemma_split_free(key, '=');
    lemma_split_free(value, '=');
    assert(seq![key] + seq![value] =~= seq![key, value]);
}

/// A line made of a key without line breaks and a plain value.
proof fn lemma_line_plain(key: Seq<char>, value: Seq<char>)
    requires
        key.len() > 0,
        free_of(key, '\n'),
        free_of(key, '='),
        plain_value(value),
    ensures
        free_of(pair_line(key, value), '\n'),
        strip_cr(pair_line(key, value)) == pair_line(key, value),
        split_on(pair_line(key, value), '=') == seq![key, value],
{
    lemma_pair_line(key, value);
    let l = pair_line(key, value);
    assert forall|i: int| 0 <= i < l.len() implies l[i] != '\n' by {
        if i < key.len() {
            assert(l[i] == key[i]);
        } else if i > key.len() {
            assert(l[i] == value[i - key.len() - 1]);
        }
    }
    if value.len() > 0 {
        assert(l.last() == value.last());
    } else {
        assert(l.last() == '=');
    }
}

/// The lines of the text of a plain configuration are its `key=value` pairs.
#[verifier::rlimit(100)]
proof fn lemma_config_lines(c: ConfigView)
    requires
        config_plain(c),
    ensures
        lines_of(config_text(c)) == config_lines(c),
{
    reveal_strlit("db_path");
    reveal_strlit("log_path");
    reveal_strlit("note_path");
    reveal_strlit("misc_path");
    reveal_strlit("todo_path");
    reveal_strlit("journal_path");
    reveal_strlit("code_path");
    reveal_strlit("theme");
    reveal_strlit("editor");
    let ls = config_lines(c);
    lemma_line_plain("db_path"@, c.db_path);
    lemma_line_plain("log_path"@, c.log_path);
    lemma_line_plain("note_path"@, c.note_path);
    lemma_line_plain("misc_path"@, c.misc_path);
    lemma_line_plain("todo_path"@, c.todo_path);
    lemma_line_plain("journal_path"@, c.journal_path);
    lemma_line_plain("code_path"@, c.code_path);
    lemma_line_plain("theme"@, c.theme);
    lemma_line_plain("editor"@, c.editor);
    assert forall|i: int| 0 <= i < ls.len() implies free_of(#[trigger] ls[i], '\n') by {
    }
    reveal_with_fuel(joined, 10);
    assert(config_text(c) =~= joined(ls));
    lemma_split_joined(ls);
    let pieces = split_on(config_text(c), '\n');
    assert(pieces.drop_last() =~= ls);
    assert(lines_of(config_text(c)) =~= ls);
}

/// Each pair of a plain configuration's lines sets its own field.
proof fn lemma_apply_config_lines(c: ConfigView, d: ConfigView)
    requires
        config_plain(c),
    ensures
        apply_lines(d, config_lines(c)) == Ok::<ConfigView, ConfigError>(c),
{
    reveal_strlit("db_path");
    reveal_strlit("log_path");
    reveal_strlit("note_path");
    reveal_strlit("misc_path");
    reveal_strlit("todo_path");
    reveal_strlit("journal_path");
    reveal_strlit("code_path");
    reveal_strlit("theme");
    reveal_strlit("editor");
    assert("misc_path"@[0] != "note_path"@[0]);
    assert("todo_path"@[0] != "note_path"@[0]);
    assert("todo_path"@[0] != "misc_path"@[0]);
    assert("code_path"@[0] != "note_path"@[0]);
    assert("code_path"@[0] != "misc_path"@[0]);
    assert("code_path"@[0] != "todo_path"@[0]);
    lemma_line_plain("db_path"@, c.db_path);
    lemma_line_plain("log_path"@, c.log_path);
    lemma_line_plain("note_path"@, c.note_path);
    lemma_line_plain("misc_path"@, c.misc_path);
    lemma_line_plain("todo_path"@, c.todo_path);
    lemma_line_plain("journal_path"@, c.journal_path);
    lemma_line_plain("code_path"@, c.code_path);
    lemma_line_plain("theme"@, c.theme);
    lemma_line_plain("editor"@, c.editor);
    let ls = config_lines(c);
    assert(apply_lines(d, ls.subrange(0, 0)) == Ok::<ConfigView, ConfigError>(d)) by {
        assert(ls.subrange(0, 0) =~= Seq::<Seq<char>>::empty());
    }
    assert(ls.subrange(0, 9) =~= ls);
    assert forall|n: int| 0 < n <= 9 implies #[trigger] ls.subrange(0, n).drop_last() == ls.subrange(
        0,
        n - 1,
    ) && ls.subrange(0, n).last() == ls[n - 1] by {
        assert(ls.subrange(0, n).drop_last() =~= ls.subrange(0, n - 1));
    }
    let c1 = ConfigView { db_path: c.db_path, ..d };
    let c2 = ConfigView { log_path: c.log_path, ..c1 };
    let c3 = ConfigView { note_path: c.note_path, ..c2 };
    let c4 = ConfigView { misc_path: c.misc_path, ..c3 };
    let c5 = ConfigView { todo_path: c.todo_path, ..c4 };
    let c6 = ConfigView { journal_path: c.journal_path, ..c5 };
    let c7 = ConfigView { code_path: c.code_path, ..c6 };
    let c8 = ConfigView { theme: c.theme, ..c7 };
    assert(apply_lines(d, ls.subrange(0, 1)) == Ok::<ConfigView, ConfigError>(c1));
    assert(apply_lines(d, ls.subrange(0, 2)) == Ok::<ConfigView, ConfigError>(c2));
    assert(apply_lines(d, ls.subrange(0, 3)) == Ok::<ConfigView, ConfigError>(c3));
    assert(apply_lines(d, ls.subrange(0, 4)) == Ok::<ConfigView, ConfigError>(c4));
    assert(apply_lines(d, ls.subrange(0, 5)) == Ok::<ConfigView, ConfigError>(c5));
    assert(apply_lines(d, ls.subrange(0, 6)) == Ok::<ConfigView, ConfigError>(c6));
    assert(apply_lines(d, ls.subrange(0, 7)) == Ok::<ConfigView, ConfigError>(c7));
    assert(apply_lines(d, ls.subrange(0, 8)) == Ok::<ConfigView, ConfigError>(c8));
    assert(apply_lines(d, ls.subrange(0, 9)) == Ok::<ConfigView, ConfigError>(c));
}

/// Reading back the text of a configuration gives that configuration again, whatever the
/// defaults, when no value holds `=` or a line break or ends with a carriage return.
pub proof fn lemma_config_round_trip(c: ConfigView, home: Seq<char>)
    requires
        config_plain(c),
    ensures
        apply_lines(default_spec(home), lines_of(config_text(c))) == Ok::<ConfigView, ConfigError>(c),
{
    lemma_config_lines(c);
    lemma_apply_config_lines(c, default_spec(home));
}

/// `rel` below the directory `base`.
fn join(base: &str, rel: &str) -> (r: String)
    ensures
        r@ == join_path(base@, rel@),
{
    let n = base.unicode_len();
    if n == 0 {
        return String::from_str(rel);
    }
    let mut r = String::from_str(base);
    if base.get_char(n - 1) != '/' {
        r.append("/");
        proof {
            reveal_strlit("/");
        }
    }
    r.append(rel);
    proof {
        if base@.last() != '/' {
            assert(r@ =~= base@ + seq!['/'] + rel@);
        }
    }
    r
}

/// Whether `path` begins with `prefix`.
fn has_prefix(path: &str, prefix: &str) -> (r: bool)
    ensures
        r == starts_with(path@, prefix@),
{
    let n = path.unicode_len();
    let m = prefix.unicode_len();
    if m > n {
        return false;
    }
    let head = path.substring_char(0, m);
    String::from_str(head) == String::from_str(prefix)
}

/// Expands the start of a path given on the command line: `~` and `$HOME` (alone or
/// followed by `/`) become the home directory `home`, a leading `./` the current directory
/// `cwd`; any other path is kept as it is.
pub fn resolve_path(path: &str, home: &str, cwd: &str) -> (r: String)
    ensures
        r@ == expanded_path(path@, home@, cwd@),
{
    let n = path.unicode_len();
    if has_prefix(path, "~") && n == 1 || has_prefix(path, "$HOME") && n == 5 {
        proof {
            reveal_strlit("~");
            reveal_strlit("$HOME");
            if path@.len() == 1 && starts_with(path@, "~"@) {
                assert(path@ =~= path@.subrange(0, 1));
            }
            if path@.len() == 5 && starts_with(path@, "$HOME"@) {
                assert(path@ =~= path@.subrange(0, 5));
            }
            reveal_strlit("");
            assert(""@ =~= Seq::<char>::empty());
        }
        return join(home, "");
    }
    proof {
        reveal_strlit("~");
        reveal_strlit("$HOME");
        assert(path@ == "~"@ ==> starts_with(path@, "~"@) && n == 1) by {
            if path@ == "~"@ {
                assert(path@.subrange(0, 1) =~= path@);
            }
        }
        assert(path@ == "$HOME"@ ==> starts_with(path@, "$HOME"@) && n == 5) by {
            if path@ == "$HOME"@ {
                assert(path@.subrange(0, 5) =~= path@);
            }
        }
    }
    if has_prefix(path, "~/") {
        proof {
            reveal_strlit("~/");
        }
        return join(home, path.substring_char(2, n));
    }
    if has_prefix(path, "$HOME/") {
        proof {
            reveal_strlit("$HOME/");
        }
        return join(home, path.substring_char(6, n));
    }
    if has_prefix(path, "./") {
        proof {
            reveal_strlit("./");
        }
        return join(cwd, path.substring_char(2, n));
    }
    String::from_str(path)
}

/// Appends `key=value` and a line break to `out`.
fn push_entry(out: &mut String, key: &str, value: &String)
    ensures
        final(out)@ == old(out)@ + entry_line(key@, value@),
{
    out.append(key);
    out.append("=");
    out.append(value.as_str());
    out.append("\n");
    proof {
        reveal_strlit("=");
        reveal_strlit("\n");
    }
    assert(out@ =~= old(out)@ + entry_line(key@, value@));
}

/// A piece without its final carriage return, if it has one.
fn strip_cr_exec(p: &String) -> (r: String)
    ensures
        r@ == strip_cr(p@),
{
    let n = p.as_str().unicode_len();
    if n > 0 && p.as_str().get_char(n - 1) == '\r' {
        String::from_str(p.as_str().substring_char(0, n - 1))
    } else {
        p.clone()
    }
}

/// The lines of a text, as `lines_of` says.
fn lines_exec(s: &str) -> (r: Vec<String>)
    ensures
        views(r@) == lines_of(s@),
{
    let pieces = split_str(s, '\n');
    let ghost ps = views(pieces@);
    proof {
        lemma_split_on_nonempty(s@, '\n');
    }
    let n = pieces.len();
    let mut out: Vec<String> = Vec::new();
    let mut i: usize = 0;
    while i + 1 < n
        invariant
            ps == views(pieces@),
            ps == split_on(s@, '\n'),
            n == ps.len(),
            n >= 1,
            i + 1 <= n,
            views(out@) == ps.drop_last().subrange(0, i as int).map_values(|p: Seq<char>| strip_cr(p)),
        decreases n - i,
    {
        let line = strip_cr_exec(&pieces[i]);
        proof {
            crate::text::lemma_views_push(out@, line);
            assert(ps.drop_last().subrange(0, i + 1).map_values(|p: Seq<char>| strip_cr(p)) =~= ps.drop_last().subrange(
                0,
                i as int,
            ).map_values(|p: Seq<char>| strip_cr(p)).push(line@));
        }
        out.push(line);
        i += 1;
    }
    assert(ps.drop_last().subrange(0, i as int) =~= ps.drop_last());
    if !pieces[n - 1].as_str().is_empty() {
        let last = pieces[n - 1].clone();
        proof {
            crate::text::lemma_views_push(out@, last);
        }
        out.push(last);
    }
    out
}

impl Config {
    /// A configuration from its nine fields.
    pub fn new(
        db_path: String,
        log_path: String,
        note_path: String,
        misc_path: String,
        todo_path: String,
        journal_path: String,
        code_path: String,
        theme: String,
        editor: String,
    ) -> (r: Config)
        ensures
            r@ == (ConfigView {
                db_path: db_path@,
                log_path: log_path@,
                note_path: note_path@,
                misc_path: misc_path@,
                todo_path: todo_path@,
                journal_path: journal_path@,
                code_path: code_path@,
                theme: theme@,
                editor: editor@,
            }),
    {
        Config {
            db_path,
            log_path,
            note_path,
            misc_path,
            todo_path,
            journal_path,
            code_path,
            theme,
            editor,
        }
    }

    /// The default configuration for the home directory `home`.
    pub fn default(home: &str) -> (r: Config)
        ensures
            r@ == default_spec(home@),
    {
        Config {
            db_path: join(home, ".cerebra/cerebra.db"),
            log_path: join(home, ".cerebra/cerebra.log"),
            note_path: join(home, "cerebra/notes"),
            misc_path: join(home, "cerebra/misc"),
            todo_path: join(home, "cerebra/todos"),
            journal_path: join(home, "cerebra/code"),
            code_path: join(home, "cerebra/code"),
            theme: String::from_str("dark"),
            editor: String::from_str("nvim"),
        }
    }

    /// The configuration as text, one `key=value` line per field.
    pub fn to_string(&self) -> (r: String)
        ensures
            r@ == config_text(self@),
    {
        let mut out = String::new();
        push_entry(&mut out, "db_path", &self.db_path);
        push_entry(&mut out, "log_path", &self.log_path);
        push_entry(&mut out, "note_path", &self.note_path);
        push_entry(&mut out, "misc_path", &self.misc_path);
        push_entry(&mut out, "todo_path", &self.todo_path);
        push_entry(&mut out, "journal_path", &self.journal_path);
        push_entry(&mut out, "code_path", &self.code_path);
        push_entry(&mut out, "theme", &self.theme);
        push_entry(&mut out, "editor", &self.editor);
        assert(out@ =~= config_text(self@));
        out
    }

    /// Sets the field that `key` names to `value`; refuses a key that names no field.
    fn set_key(&mut self, key: &String, value: String) -> (r: Result<(), ConfigError>)
        ensures
            match set_key(old(self)@, key@, value@) {
                Ok(c) => r is Ok && final(self)@ == c,
                Err(e) => r == Err::<(), ConfigError>(e) && final(self)@ == old(self)@,
            },
    {
        if is_word(key, "db_path") {
            self.db_path = value;
        } else if is_word(key, "log_path") {
            self.log_path = value;
        } else if is_word(key, "note_path") {
            self.note_path = value;
        } else if is_word(key, "misc_path") {
            self.misc_path = value;
        } else if is_word(key, "todo_path") {
            self.todo_path = value;
        } else if is_word(key, "journal_path") {
            self.journal_path = value;
        } else if is_word(key, "code_path") {
            self.code_path = value;
        } else if is_word(key, "theme") {
            self.theme = value;
        } else if is_word(key, "editor") {
            self.editor = value;
        } else {
            return Err(ConfigError::UnknownKey);
        }
        Ok(())
    }

    /// Reads a configuration text: starting from the defaults for the home directory
    /// `home`, each line `key=value` sets one field. A line without `=`, or with a key that
    /// names no field, is refused.
    pub fn from_string(config_str: &str, home: &str) -> (r: Result<Config, ConfigError>)
        ensures
            match apply_lines(default_spec(home@), lines_of(config_str@)) {
                Ok(c) => r matches Ok(x) && x@ == c,
                Err(e) => r matches Err(x) && x == e,
            },
    {
        let mut config = Config::default(home);
        let lines = lines_exec(config_str);
        let ghost ls = views(lines@);
        let ghost d = default_spec(home@);
        let mut i: usize = 0;
        assert(ls.subrange(0, 0) =~= Seq::<Seq<char>>::empty());
        while i < lines.len()
            invariant
                ls == views(lines@),
                ls == lines_of(config_str@),
                d == default_spec(home@),
                i <= ls.len(),
                apply_lines(d, ls.subrange(0, i as int)) == Ok::<ConfigView, ConfigError>(config@),
            decreases ls.len() - i,
        {
            let ghost sub = ls.subrange(0, i + 1);
            assert(sub.drop_last() =~= ls.subrange(0, i as int));
            assert(sub.last() == lines@[i as int]@);
            let parts = split_str(lines[i].as_str(), '=');
            assert(apply_lines(d, sub) == apply_line(config@, ls[i as int]));
            if parts.len() < 2 {
                proof {
                    lemma_apply_lines_err(d, ls, i as int + 1);
                }
                return Err(ConfigError::MissingValue);
            }
            assert(views(parts@)[0] == parts@[0]@ && views(parts@)[1] == parts@[1]@);
            let value = parts[1].clone();
            match config.set_key(&parts[0], value) {
                Ok(()) => {},
                Err(e) => {
                    proof {
                        lemma_apply_lines_err(d, ls, i as int + 1);
                    }
                    return Err(e);
                },
            }
            i += 1;
        }
        assert(ls.subrange(0, i as int) =~= ls);
        Ok(config)
    }
}

/// Once a prefix of the lines is refused, the whole text is, with the same error.
pub proof fn lemma_apply_lines_err(c: ConfigView, ls: Seq<Seq<char>>, n: int)
    requires
        0 <= n <= ls.len(),
        apply_lines(c, ls.subrange(0, n)) is Err,
    ensures
        apply_lines(c, ls) == apply_lines(c, ls.subrange(0, n)),
    decreases ls.len() - n,
{
    if n < ls.len() {
        let sub = ls.subrange(0, n + 1);
        assert(sub.drop_last() =~= ls.subrange(0, n));
        lemma_apply_lines_err(c, ls, n + 1);
    } else {
        assert(ls.subrange(0, n) =~= ls);
    }
}

} // verus!
