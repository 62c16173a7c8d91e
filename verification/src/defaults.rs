//! The built-in mappings of each platform.

use crate::mappings::{entry_problem, first_problem, is_rooted, lemma_table_no_problem, values_problem};
use crate::table::{
    assoc_insert, has_key, key_index, keys_distinct, lemma_seq_to_map_dom, lemma_seq_to_map_index, lemma_seq_to_map_update,
    lemma_table_seq_distinct, lemma_table_seq_entries, find_key, seq_to_map, strings_view, table_seq, Mappings,
};
use vstd::prelude::*;

verus! {

/// `rel` under the home directory: `~/rel`.
pub open spec fn home_rel(rel: Seq<char>) -> Seq<char> {
    "~/"@ + rel
}

/// Pairs of strings as plain values.
pub open spec fn pairs_view(p: Seq<(&str, &str)>) -> Seq<(Seq<char>, Seq<char>)> {
    p.map_values(|e: (&str, &str)| (e.0@, e.1@))
}

/// Default entries: each key maps to the one home-relative path of its pair.
pub open spec fn default_entries(pairs: Seq<(Seq<char>, Seq<char>)>) -> Seq<(Seq<char>, Seq<Seq<char>>)> {
    pairs.map_values(|p: (Seq<char>, Seq<char>)| (p.0, seq![home_rel(p.1)]))
}

/// The windows defaults: each key with the path under the home directory that it maps to.
pub open spec fn windows_pairs() -> Seq<(Seq<char>, Seq<char>)> {
    seq![
        (".gvimrc"@, "vimfiles/gvimrc"@),
        (".vim"@, "vimfiles"@),
        (".vimrc"@, "vimfiles/vimrc"@),
    ]
}

/// The unixlike defaults: each key with the path under the home directory that it maps to.
pub open spec fn unixlike_pairs() -> Seq<(Seq<char>, Seq<char>)> {
    seq![
        (".agignore"@, ".agignore"@),
        (".bash_login"@, ".bash_login"@),
        (".bash_profile"@, ".bash_profile"@),
        (".bashrc"@, ".bashrc"@),
        (".emacs.d"@, ".emacs.d"@),
        (".emacs.el"@, ".emacs.d/init.el"@),
        (".eslintrc"@, ".eslintrc"@),
        (".eslintrc.json"@, ".eslintrc.json"@),
        (".eslintrc.yml"@, ".eslintrc.yml"@),
        (".gvimrc"@, ".gvimrc"@),
        (".npmrc"@, ".npmrc"@),
        (".profile"@, ".profile"@),
        (".pryrc"@, ".pryrc"@),
        (".pylintrc"@, ".pylintrc"@),
        (".tmux.conf"@, ".tmux.conf"@),
        (".vim"@, ".vim"@),
        (".vimrc"@, ".vimrc"@),
        (".zlogin"@, ".zlogin"@),
        (".zprofile"@, ".zprofile"@),
        (".zshenv"@, ".zshenv"@),
        (".zshrc"@, ".zshrc"@),
        ("agignore"@, ".agignore"@),
        ("bash_login"@, ".bash_login"@),
        ("bash_profile"@, ".bash_profile"@),
        ("bashrc"@, ".bashrc"@),
        ("emacs.d"@, ".emacs.d"@),
        ("emacs.el"@, ".emacs.d/init.el"@),
        ("eslintrc"@, ".eslintrc"@),
        ("eslintrc.json"@, ".eslintrc.json"@),
        ("eslintrc.yml"@, ".eslintrc.yml"@),
        ("gvimrc"@, ".gvimrc"@),
        ("npmrc"@, ".npmrc"@),
        ("profile"@, ".profile"@),
        ("pryrc"@, ".pryrc"@),
        ("pylintrc"@, ".pylintrc"@),
        ("tmux.conf"@, ".tmux.conf"@),
        ("vim"@, ".vim"@),
        ("vimrc"@, ".vimrc"@),
        ("zlogin"@, ".zlogin"@),
        ("zprofile"@, ".zprofile"@),
        ("zshenv"@, ".zshenv"@),
        ("zshrc"@, ".zshrc"@),
        ("init.el"@, ".emacs.d/init.el"@),
        ("peco"@, ".config/peco"@),
    ]
}

/// The linux defaults: each key with the path under the home directory that it maps to.
pub open spec fn linux_pairs() -> Seq<(Seq<char>, Seq<char>)> {
    seq![
        (".Xmodmap"@, ".Xmodmap"@),
        (".Xresources"@, ".Xresources"@),
        ("Xmodmap"@, ".Xmodmap"@),
        ("Xresources"@, ".Xresources"@),
        ("rc.lua"@, ".config/rc.lua"@),
    ]
}

/// The darwin defaults: each key with the path under the home directory that it maps to.
pub open spec fn darwin_pairs() -> Seq<(Seq<char>, Seq<char>)> {
    seq![
        (".htoprc"@, ".htoprc"@),
        ("htoprc"@, ".htoprc"@),
    ]
}

/// The default tables, one per platform name, in the order they are made.
pub open spec fn default_platforms() -> Seq<(Seq<char>, Seq<(Seq<char>, Seq<Seq<char>>)>)> {
    table_seq(
        seq![
            ("windows"@, table_seq(default_entries(windows_pairs()))),
            ("unixlike"@, table_seq(default_entries(unixlike_pairs()))),
            ("linux"@, table_seq(default_entries(linux_pairs()))),
            ("darwin"@, table_seq(default_entries(darwin_pairs()))),
        ],
    )
}

/// The default tables by platform name.
pub open spec fn default_mappings_spec() -> Map<Seq<char>, Seq<(Seq<char>, Seq<Seq<char>>)>> {
    seq_to_map(default_platforms())
}

/// A table of mapping tables, one per platform name.
pub struct DefaultMappings {
    entries: Vec<(String, Mappings)>,
}

impl DefaultMappings {
    /// The platform names with their tables' entries, in order.
    pub closed spec fn platform_seq(&self) -> Seq<(Seq<char>, Seq<(Seq<char>, Seq<Seq<char>>)>)> {
        self.entries@.map_values(|e: (String, Mappings)| (e.0@, e.1.entry_seq()))
    }

    /// Well-formed: no platform twice, and no key twice within a table.
    pub open spec fn wf(&self) -> bool {
        &&& keys_distinct(self.platform_seq())
        &&& forall|i: int| 0 <= i < self.platform_seq().len() ==> keys_distinct(#[trigger] self.platform_seq()[i].1)
    }

    /// No tables.
    pub fn new() -> (d: DefaultMappings)
        ensures
            d.wf(),
            d.platform_seq() == Seq::<(Seq<char>, Seq<(Seq<char>, Seq<Seq<char>>)>)>::empty(),
    {
        let d = DefaultMappings { entries: Vec::new() };
        assert(d.platform_seq() =~= Seq::<(Seq<char>, Seq<(Seq<char>, Seq<Seq<char>>)>)>::empty());
        d
    }

    /// The table of `platform`, if there is one.
    pub fn get(&self, platform: &str) -> (res: Option<&Mappings>)
        requires
            self.wf(),
        ensures
            res is Some <==> self@.contains_key(platform@),
            res matches Some(m) ==> m.wf() && m.entry_seq() == self@[platform@],
    {
        let k = platform.to_owned();
        match find_key(&self.entries, &k) {
            Some(i) => {
                proof {
                    lemma_seq_to_map_index(self.platform_seq(), i as int);
                    assert(keys_distinct(self.platform_seq()[i as int].1));
                }
                Some(&self.entries[i].1)
            },
            None => {
                proof {
                    lemma_seq_to_map_dom(self.platform_seq(), platform@);
                }
                None
            },
        }
    }

    /// Whether there is a table for `platform`.
    pub fn contains_key(&self, platform: &str) -> (b: bool)
        requires
            self.wf(),
        ensures
            b == self@.contains_key(platform@),
    {
        self.get(platform).is_some()
    }

    /// Sets the table of `platform`.
    pub fn insert(&mut self, platform: String, table: Mappings)
        requires
            old(self).wf(),
            table.wf(),
        ensures
            final(self).wf(),
            final(self).platform_seq() == assoc_insert(old(self).platform_seq(), platform@, table.entry_seq()),
    {
        let ghost old_seq = self.platform_seq();
        let ghost kv = platform@;
        let ghost tv = table.entry_seq();
        match find_key(&self.entries, &platform) {
            Some(i) => {
                assert(old_seq[i as int].0 == kv);
                proof {
                    lemma_seq_to_map_update(old_seq, i as int, tv);
                }
                self.entries.set(i, (platform, table));
                assert(self.platform_seq() =~= old_seq.update(i as int, (kv, tv)));
                assert(has_key(old_seq, kv));
                assert(key_index(old_seq, kv) == i);
            },
            None => {
                self.entries.push((platform, table));
                assert(self.platform_seq() =~= old_seq.push((kv, tv)));
                assert(!has_key(old_seq, kv));
            },
        }
    }
}

impl View for DefaultMappings {
    type V = Map<Seq<char>, Seq<(Seq<char>, Seq<Seq<char>>)>>;

    open spec fn view(&self) -> Map<Seq<char>, Seq<(Seq<char>, Seq<Seq<char>>)>> {
        seq_to_map(self.platform_seq())
    }
}

/// `rel` under the home directory.
fn home_relative(rel: &str) -> (res: String)
    ensures
        res@ == home_rel(rel@),
{
    let mut res = "~/".to_owned();
    res.append(rel);
    res
}

/// The default table made of key and home-relative path pairs.
fn default_table(pairs: &Vec<(&str, &str)>) -> (m: Mappings)
    ensures
        m.wf(),
        m.entry_seq() == table_seq(default_entries(pairs_view(pairs@))),
{
    let ghost es = default_entries(pairs_view(pairs@));
    let mut m = Mappings::new();
    let n = pairs.len();
    let mut i: usize = 0;
    while i < n
        invariant
            n == pairs@.len(),
            es == default_entries(pairs_view(pairs@)),
            i <= n,
            m.wf(),
            m.entry_seq() == table_seq(es.take(i as int)),
        decreases n - i,
    {
        let (key, rel) = pairs[i];
        let mut paths: Vec<String> = Vec::new();
        paths.push(home_relative(rel));
        assert(strings_view(paths@) =~= seq![home_rel(rel@)]);
        m.insert(key.to_owned(), paths);
        assert(es.take(i + 1).drop_last() =~= es.take(i as int));
        i += 1;
    }
    assert(es.take(n as int) =~= es);
    m
}

/// The built-in mappings of each platform: `windows`, `unixlike` (shared by
/// Linux and macOS), `linux` and `darwin`.
pub fn get_default_mappings() -> (d: DefaultMappings)
    ensures
        d.wf(),
        d.platform_seq() == default_platforms(),
        d@ == default_mappings_spec(),
{
    let windows: Vec<(&str, &str)> = vec![
        (".gvimrc", "vimfiles/gvimrc"),
        (".vim", "vimfiles"),
        (".vimrc", "vimfiles/vimrc"),
    ];
    assert(pairs_view(windows@) =~= windows_pairs());
    let unixlike: Vec<(&str, &str)> = vec![
        (".agignore", ".agignore"),
        (".bash_login", ".bash_login"),
        (".bash_profile", ".bash_profile"),
        (".bashrc", ".bashrc"),
        (".emacs.d", ".emacs.d"),
        (".emacs.el", ".emacs.d/init.el"),
        (".eslintrc", ".eslintrc"),
        (".eslintrc.json", ".eslintrc.json"),
        (".eslintrc.yml", ".eslintrc.yml"),
        (".gvimrc", ".gvimrc"),
        (".npmrc", ".npmrc"),
        (".profile", ".profile"),
        (".pryrc", ".pryrc"),
        (".pylintrc", ".pylintrc"),
        (".tmux.conf", ".tmux.conf"),
        (".vim", ".vim"),
        (".vimrc", ".vimrc"),
        (".zlogin", ".zlogin"),
        (".zprofile", ".zprofile"),
        (".zshenv", ".zshenv"),
        (".zshrc", ".zshrc"),
        ("agignore", ".agignore"),
        ("bash_login", ".bash_login"),
        ("bash_profile", ".bash_profile"),
        ("bashrc", ".bashrc"),
        ("emacs.d", ".emacs.d"),
        ("emacs.el", ".emacs.d/init.el"),
        ("eslintrc", ".eslintrc"),
        ("eslintrc.json", ".eslintrc.json"),
        ("eslintrc.yml", ".eslintrc.yml"),
        ("gvimrc", ".gvimrc"),
        ("npmrc", ".npmrc"),
        ("profile", ".profile"),
        ("pryrc", ".pryrc"),
        ("pylintrc", ".pylintrc"),
        ("tmux.conf", ".tmux.conf"),
        ("vim", ".vim"),
        ("vimrc", ".vimrc"),
        ("zlogin", ".zlogin"),
        ("zprofile", ".zprofile"),
        ("zshenv", ".zshenv"),
        ("zshrc", ".zshrc"),
        ("init.el", ".emacs.d/init.el"),
        ("peco", ".config/peco"),
    ];
    assert(pairs_view(unixlike@) =~= unixlike_pairs());
    let linux: Vec<(&str, &str)> = vec![
        (".Xmodmap", ".Xmodmap"),
        (".Xresources", ".Xresources"),
        ("Xmodmap", ".Xmodmap"),
        ("Xresources", ".Xresources"),
        ("rc.lua", ".config/rc.lua"),
    ];
    assert(pairs_view(linux@) =~= linux_pairs());
    let darwin: Vec<(&str, &str)> = vec![
        (".htoprc", ".htoprc"),
        ("htoprc", ".htoprc"),
    ];
    assert(pairs_view(darwin@) =~= darwin_pairs());
    let mut defaults = DefaultMappings::new();
    defaults.insert("windows".to_owned(), default_table(&windows));
    defaults.insert("unixlike".to_owned(), default_table(&unixlike));
    defaults.insert("linux".to_owned(), default_table(&linux));
    defaults.insert("darwin".to_owned(), default_table(&darwin));
    proof {
        let l = seq![
            ("windows"@, table_seq(default_entries(windows_pairs()))),
            ("unixlike"@, table_seq(default_entries(unixlike_pairs()))),
            ("linux"@, table_seq(default_entries(linux_pairs()))),
            ("darwin"@, table_seq(default_entries(darwin_pairs()))),
        ];
        assert(l.drop_last().drop_last().drop_last().drop_last() =~= Seq::<(Seq<char>, Seq<(Seq<char>, Seq<Seq<char>>)>)>::empty());
        assert(l.drop_last().drop_last().drop_last() =~= seq![l[0]]);
        assert(l.drop_last().drop_last() =~= seq![l[0], l[1]]);
        assert(l.drop_last() =~= seq![l[0], l[1], l[2]]);
        let e = Seq::<(Seq<char>, Seq<(Seq<char>, Seq<Seq<char>>)>)>::empty();
        let t1 = assoc_insert(e, l[0].0, l[0].1);
        let t2 = assoc_insert(t1, l[1].0, l[1].1);
        let t3 = assoc_insert(t2, l[2].0, l[2].1);
        assert(table_seq(seq![l[0]]) == t1) by {
            assert(seq![l[0]].drop_last() =~= e);
            assert(table_seq(e) == e);
        }
        assert(table_seq(seq![l[0], l[1]]) == t2) by {
            assert(seq![l[0], l[1]].drop_last() =~= seq![l[0]]);
        }
        assert(table_seq(seq![l[0], l[1], l[2]]) == t3) by {
            assert(seq![l[0], l[1], l[2]].drop_last() =~= seq![l[0], l[1]]);
        }
        assert(table_seq(l) == assoc_insert(t3, l[3].0, l[3].1));
    }
    defaults
}


/// A default entry: a non-empty key with one home-relative path.
proof fn lemma_default_entries_ok(pairs: Seq<(Seq<char>, Seq<char>)>, h: Seq<char>)
    requires
        forall|j: int| 0 <= j < pairs.len() ==> (#[trigger] pairs[j]).0.len() > 0,
    ensures
        forall|j: int| 0 <= j < pairs.len() ==> entry_problem(#[trigger] default_entries(pairs)[j], Some(h)) is None,
{
    reveal_strlit("~/");
    assert forall|j: int| 0 <= j < pairs.len() implies entry_problem(#[trigger] default_entries(pairs)[j], Some(h)) is None by {
        let vs = seq![home_rel(pairs[j].1)];
        assert(default_entries(pairs)[j] == (pairs[j].0, vs));
        assert(vs.drop_last() =~= Seq::<Seq<char>>::empty());
        assert(values_problem(Seq::<Seq<char>>::empty(), Some(h)) is None);
        assert(vs.last() == "~/"@ + pairs[j].1);
        assert(vs.last()[0] == '~');
        assert(is_rooted(vs.last()));
        assert(values_problem(vs, Some(h)) is None);
    }
}


/// Every key of the default tables is non-empty.
proof fn lemma_default_keys_nonempty()
    ensures
        forall|j: int| 0 <= j < windows_pairs().len() ==> (#[trigger] windows_pairs()[j]).0.len() > 0,
        forall|j: int| 0 <= j < unixlike_pairs().len() ==> (#[trigger] unixlike_pairs()[j]).0.len() > 0,
        forall|j: int| 0 <= j < linux_pairs().len() ==> (#[trigger] linux_pairs()[j]).0.len() > 0,
        forall|j: int| 0 <= j < darwin_pairs().len() ==> (#[trigger] darwin_pairs()[j]).0.len() > 0,
{
    reveal_strlit(".gvimrc");
    reveal_strlit(".vim");
    reveal_strlit(".vimrc");
    reveal_strlit(".agignore");
    reveal_strlit(".bash_login");
    reveal_strlit(".bash_profile");
    reveal_strlit(".bashrc");
    reveal_strlit(".emacs.d");
    reveal_strlit(".emacs.el");
    reveal_strlit(".eslintrc");
    reveal_strlit(".eslintrc.json");
    reveal_strlit(".eslintrc.yml");
    reveal_strlit(".npmrc");
    reveal_strlit(".profile");
    reveal_strlit(".pryrc");
    reveal_strlit(".pylintrc");
    reveal_strlit(".tmux.conf");
    reveal_strlit(".zlogin");
    reveal_strlit(".zprofile");
    reveal_strlit(".zshenv");
    reveal_strlit(".zshrc");
    reveal_strlit("agignore");
    reveal_strlit("bash_login");
    reveal_strlit("bash_profile");
    reveal_strlit("bashrc");
    reveal_strlit("emacs.d");
    reveal_strlit("emacs.el");
    reveal_strlit("eslintrc");
    reveal_strlit("eslintrc.json");
    reveal_strlit("eslintrc.yml");
    reveal_strlit("gvimrc");
    reveal_strlit("npmrc");
    reveal_strlit("profile");
    reveal_strlit("pryrc");
    reveal_strlit("pylintrc");
    reveal_strlit("tmux.conf");
    reveal_strlit("vim");
    reveal_strlit("vimrc");
    reveal_strlit("zlogin");
    reveal_strlit("zprofile");
    reveal_strlit("zshenv");
    reveal_strlit("zshrc");
    reveal_strlit("init.el");
    reveal_strlit("peco");
    reveal_strlit(".Xmodmap");
    reveal_strlit(".Xresources");
    reveal_strlit("Xmodmap");
    reveal_strlit("Xresources");
    reveal_strlit("rc.lua");
    reveal_strlit(".htoprc");
    reveal_strlit("htoprc");
}


/// The default tables merge without a problem whenever a home directory is
/// known: their keys are non-empty and their paths are home-relative.
pub proof fn lemma_defaults_merge_cleanly(h: Seq<char>)
    ensures
        forall|p: Seq<char>| #[trigger] default_mappings_spec().contains_key(p)
            ==> first_problem(default_mappings_spec()[p], Some(h)) is None,
{
    lemma_default_keys_nonempty();
    lemma_default_entries_ok(windows_pairs(), h);
    lemma_default_entries_ok(unixlike_pairs(), h);
    lemma_default_entries_ok(linux_pairs(), h);
    lemma_default_entries_ok(darwin_pairs(), h);
    lemma_table_no_problem(default_entries(windows_pairs()), Some(h));
    lemma_table_no_problem(default_entries(unixlike_pairs()), Some(h));
    lemma_table_no_problem(default_entries(linux_pairs()), Some(h));
    lemma_table_no_problem(default_entries(darwin_pairs()), Some(h));
    let l = seq![
        ("windows"@, table_seq(default_entries(windows_pairs()))),
        ("unixlike"@, table_seq(default_entries(unixlike_pairs()))),
        ("linux"@, table_seq(default_entries(linux_pairs()))),
        ("darwin"@, table_seq(default_entries(darwin_pairs()))),
    ];
    let t = table_seq(l);
    assert(t == default_platforms());
    lemma_table_seq_distinct(l);
    assert forall|p: Seq<char>| #[trigger] default_mappings_spec().contains_key(p)
        implies first_problem(default_mappings_spec()[p], Some(h)) is None by {
        lemma_seq_to_map_dom(t, p);
        let i = choose|i: int| 0 <= i < t.len() && t[i].0 == p;
        lemma_seq_to_map_index(t, i);
        lemma_table_seq_entries(l, i);
        let j = choose|j: int| 0 <= j < l.len() && l[j] == t[i];
        assert(j == 0 || j == 1 || j == 2 || j == 3);
    }
}

} // verus!
