//! The commands of the tree shell: reading a command line, and the text
//! that the commands show.

use vstd::prelude::*;
use crate::text::{
    append_chars, chars_eq, chars_eq_str, chars_of, copy_range, decimal, decimal_exec,
    eq_ignore_ascii_case, eq_ignore_ascii_case_exec, find, find_from_exec, lemma_find_from_bounds,
    string_of, trim, trim_exec, trim_start, trim_start_exec,
};
use crate::graph::{tree_view, Node, NodeView};
use crate::order::{insert_sorted, strictly_sorted, strings_view};

verus! {

// ---------------------------------------------------------------------------
// Command lines
// ---------------------------------------------------------------------------

/// A command typed at the shell prompt, with its argument.
#[derive(Debug)]
pub enum ShellCommand {
    Cd(String),
    Compact(String),
    Export(String),
    Info(String),
    Debug(String),
    List(String),
    Help(String),
    Test(String),
    /// `exit` or `quit`.
    Quit,
    /// An empty line.
    Nothing,
    /// Any other command word.
    Invalid(String),
}

/// A line split into its command word (up to the first space of the
/// trimmed line) and its argument (the rest, without leading whitespace).
pub open spec fn split_command(line: Seq<char>) -> (Seq<char>, Seq<char>) {
    let t = trim(line);
    let k = match find(t, seq![' ']) {
        Some(i) => i,
        None => t.len() as int,
    };
    (t.take(k), trim_start(t.skip(k)))
}

/// `c` is the command that the word `word` with argument `arg` names.
pub open spec fn command_named(c: ShellCommand, word: Seq<char>, arg: Seq<char>) -> bool {
    if word == "cd"@ {
        c matches ShellCommand::Cd(a) && a@ == arg
    } else if word == "compact"@ {
        c matches ShellCommand::Compact(a) && a@ == arg
    } else if word == "export"@ {
        c matches ShellCommand::Export(a) && a@ == arg
    } else if word == "info"@ {
        c matches ShellCommand::Info(a) && a@ == arg
    } else if word == "debug"@ {
        c matches ShellCommand::Debug(a) && a@ == arg
    } else if word == "list"@ {
        c matches ShellCommand::List(a) && a@ == arg
    } else if word == "help"@ {
        c matches ShellCommand::Help(a) && a@ == arg
    } else if word == "test"@ {
        c matches ShellCommand::Test(a) && a@ == arg
    } else if word == "exit"@ || word == "quit"@ {
        c is Quit
    } else if word.len() == 0 {
        c is Nothing
    } else {
        c matches ShellCommand::Invalid(w) && w@ == word
    }
}

impl ShellCommand {
    /// The command a line typed at the prompt asks for.
    pub fn parse(line: &str) -> (c: ShellCommand)
        ensures
            command_named(c, split_command(line@).0, split_command(line@).1),
    {
        let t = trim_exec(&chars_of(line));
        let sp = vec![' '];
        assert(sp@ =~= seq![' ']);
        let k = match find_from_exec(&t, &sp, 0) {
            Some(i) => {
                proof {
                    lemma_find_from_bounds(t@, sp@, 0);
                }
                i
            },
            None => t.len(),
        };
        let word = copy_range(&t, 0, k);
        let rest = copy_range(&t, k, t.len());
        let arg = string_of(trim_start_exec(&rest).as_slice());
        assert(word@ =~= t@.take(k as int));
        assert(rest@ =~= t@.skip(k as int));
        if chars_eq_str(&word, "cd") {
            ShellCommand::Cd(arg)
        } else if chars_eq_str(&word, "compact") {
            ShellCommand::Compact(arg)
        } else if chars_eq_str(&word, "export") {
            ShellCommand::Export(arg)
        } else if chars_eq_str(&word, "info") {
            ShellCommand::Info(arg)
        } else if chars_eq_str(&word, "debug") {
            ShellCommand::Debug(arg)
        } else if chars_eq_str(&word, "list") {
            ShellCommand::List(arg)
        } else if chars_eq_str(&word, "help") {
            ShellCommand::Help(arg)
        } else if chars_eq_str(&word, "test") {
            ShellCommand::Test(arg)
        } else if chars_eq_str(&word, "exit") || chars_eq_str(&word, "quit") {
            ShellCommand::Quit
        } else if word.len() == 0 {
            ShellCommand::Nothing
        } else {
            ShellCommand::Invalid(string_of(word.as_slice()))
        }
    }
}

// ---------------------------------------------------------------------------
// Help
// ---------------------------------------------------------------------------

/// The lines of help shown for `help <arg>`.
pub open spec fn help_lines(arg: Seq<char>) -> Seq<Seq<char>> {
    if arg == "info"@ {
        seq![
            "Usage: info options"@,
            ""@,
            "Shows information about the selected tree or a specific node"@,
        ]
    } else if arg == "compact"@ {
        seq!["Usage: compact"@, ""@, "Reduce the tree size compacting the items where possible"@]
    } else if arg == "export"@ {
        seq!["Usage: export"@, ""@, "Export the tree in drawio graph format"@]
    } else if arg == "cd"@ {
        seq!["Usage: cd parent"@, ""@, "Change the parent of the tree and build it"@]
    } else if arg == "get"@ {
        seq!["Usage: get options"@, ""@, "Retrieve one or more node based on the options"@]
    } else if arg == "debug"@ {
        seq!["Usage: debug on | off"@, ""@, "On/Off the debug logging"@]
    } else if arg == "list"@ {
        seq![
            "Usage: list options"@,
            ""@,
            "List tree element based on options: impostazioni|domande|decisioni|jump|diagnosi|stelle|opzioni|servizi|riscontri|cic|"@,
        ]
    } else {
        seq![
            "Available Commands:"@,
            "  compact     - Reduce the size of the tree"@,
            "  export      - Export the tree as drawio file"@,
            "  cd          - Change the root and build the tree"@,
            "  info        - Show info about the selected tree"@,
            "  list        - List the node starting from a parent"@,
            "  get         - Retrieve specific nodes based on options"@,
            "  debug       - Switch log to debug"@,
            "  help        - Show this help"@,
            "  quit        - Quit gen-tree"@,
            ""@,
            "You can also enter \"help COMMAND\" to get additional help about some commands."@,
        ]
    }
}

/// The lines of help for `help <arg>`.
pub fn help(arg: &str) -> (lines: Vec<&'static str>)
    ensures
        lines@.map_values(|s: &str| s@) == help_lines(arg@),
{
    let a = chars_of(arg);
    let lines: Vec<&'static str> = if chars_eq_str(&a, "info") {
        vec![
            "Usage: info options",
            "",
            "Shows information about the selected tree or a specific node",
        ]
    } else if chars_eq_str(&a, "compact") {
        vec!["Usage: compact", "", "Reduce the tree size compacting the items where possible"]
    } else if chars_eq_str(&a, "export") {
        vec!["Usage: export", "", "Export the tree in drawio graph format"]
    } else if chars_eq_str(&a, "cd") {
        vec!["Usage: cd parent", "", "Change the parent of the tree and build it"]
    } else if chars_eq_str(&a, "get") {
        vec!["Usage: get options", "", "Retrieve one or more node based on the options"]
    } else if chars_eq_str(&a, "debug") {
        vec!["Usage: debug on | off", "", "On/Off the debug logging"]
    } else if chars_eq_str(&a, "list") {
        vec![
            "Usage: list options",
            "",
            "List tree element based on options: impostazioni|domande|decisioni|jump|diagnosi|stelle|opzioni|servizi|riscontri|cic|",
        ]
    } else {
        vec![
            "Available Commands:",
            "  compact     - Reduce the size of the tree",
            "  export      - Export the tree as drawio file",
            "  cd          - Change the root and build the tree",
            "  info        - Show info about the selected tree",
            "  list        - List the node starting from a parent",
            "  get         - Retrieve specific nodes based on options",
            "  debug       - Switch log to debug",
            "  help        - Show this help",
            "  quit        - Quit gen-tree",
            "",
            "You can also enter \"help COMMAND\" to get additional help about some commands.",
        ]
    };
    assert(lines@.map_values(|s: &str| s@) =~= help_lines(arg@));
    lines
}


// ---------------------------------------------------------------------------
// Queries over the tree
// ---------------------------------------------------------------------------

/// The ids of the nodes labelled `label`, in order.
pub open spec fn labelled_ids(tree: Seq<NodeView>, label: Seq<char>) -> Seq<Seq<char>>
    decreases tree.len(),
{
    if tree.len() == 0 {
        Seq::empty()
    } else {
        labelled_ids(tree.drop_last(), label) + if tree.last().label == label {
            seq![tree.last().id]
        } else {
            Seq::empty()
        }
    }
}

/// The tooltips of the nodes labelled `label`, in order.
pub open spec fn labelled_tooltips(tree: Seq<NodeView>, label: Seq<char>) -> Seq<Seq<char>>
    decreases tree.len(),
{
    if tree.len() == 0 {
        Seq::empty()
    } else {
        labelled_tooltips(tree.drop_last(), label) + if tree.last().label == label {
            seq![tree.last().tooltip]
        } else {
            Seq::empty()
        }
    }
}

/// The tooltips of the nodes whose label is `filter` up to ASCII case.
pub open spec fn loose_tooltips(tree: Seq<NodeView>, filter: Seq<char>) -> Seq<Seq<char>>
    decreases tree.len(),
{
    if tree.len() == 0 {
        Seq::empty()
    } else {
        loose_tooltips(tree.drop_last(), filter) + if eq_ignore_ascii_case(tree.last().label, filter) {
            seq![tree.last().tooltip]
        } else {
            Seq::empty()
        }
    }
}

/// The positions of the nodes whose id is `id`.
pub open spec fn positions_of(tree: Seq<NodeView>, id: Seq<char>) -> Seq<usize>
    decreases tree.len(),
{
    if tree.len() == 0 {
        Seq::empty()
    } else {
        positions_of(tree.drop_last(), id) + if tree.last().id == id {
            seq![(tree.len() - 1) as usize]
        } else {
            Seq::empty()
        }
    }
}

/// The ids of the nodes labelled `label`.
pub fn labelled_node_ids(tree: &Vec<Node>, label: &str) -> (r: Vec<String>)
    ensures
        strings_view(r@) == labelled_ids(tree_view(tree@), label@),
{
    let ghost tv = tree_view(tree@);
    let lc = chars_of(label);
    let mut r: Vec<String> = Vec::new();
    let mut i: usize = 0;
    assert(tv.take(0) =~= Seq::<NodeView>::empty());
    while i < tree.len()
        invariant
            tv == tree_view(tree@),
            lc@ == label@,
            i <= tv.len(),
            strings_view(r@) == labelled_ids(tv.take(i as int), label@),
        decreases tree.len() - i,
    {
        assert(tv.take(i + 1).drop_last() =~= tv.take(i as int));
        let ghost before = strings_view(r@);
        if chars_eq(&chars_of(tree[i].label.as_str()), &lc) {
            r.push(tree[i].id.clone());
            assert(strings_view(r@) =~= before.push(tv[i as int].id));
        } else {
            assert(before + Seq::<Seq<char>>::empty() =~= before);
        }
        i = i + 1;
    }
    assert(tv.take(i as int) =~= tv);
    r
}

/// The tooltips of the nodes labelled `label`.
pub fn labelled_node_tooltips(tree: &Vec<Node>, label: &str) -> (r: Vec<String>)
    ensures
        strings_view(r@) == labelled_tooltips(tree_view(tree@), label@),
{
    let ghost tv = tree_view(tree@);
    let lc = chars_of(label);
    let mut r: Vec<String> = Vec::new();
    let mut i: usize = 0;
    assert(tv.take(0) =~= Seq::<NodeView>::empty());
    while i < tree.len()
        invariant
            tv == tree_view(tree@),
            lc@ == label@,
            i <= tv.len(),
            strings_view(r@) == labelled_tooltips(tv.take(i as int), label@),
        decreases tree.len() - i,
    {
        assert(tv.take(i + 1).drop_last() =~= tv.take(i as int));
        let ghost before = strings_view(r@);
        if chars_eq(&chars_of(tree[i].label.as_str()), &lc) {
            r.push(tree[i].tooltip.clone());
            assert(strings_view(r@) =~= before.push(tv[i as int].tooltip));
        } else {
            assert(before + Seq::<Seq<char>>::empty() =~= before);
        }
        i = i + 1;
    }
    assert(tv.take(i as int) =~= tv);
    r
}

/// The tooltips of the nodes whose label is `filter` up to ASCII case.
pub fn loose_node_tooltips(tree: &Vec<Node>, filter: &str) -> (r: Vec<String>)
    ensures
        strings_view(r@) == loose_tooltips(tree_view(tree@), filter@),
{
    let ghost tv = tree_view(tree@);
    let fc = chars_of(filter);
    let mut r: Vec<String> = Vec::new();
    let mut i: usize = 0;
    assert(tv.take(0) =~= Seq::<NodeView>::empty());
    while i < tree.len()
        invariant
            tv == tree_view(tree@),
            fc@ == filter@,
            i <= tv.len(),
            strings_view(r@) == loose_tooltips(tv.take(i as int), filter@),
        decreases tree.len() - i,
    {
        assert(tv.take(i + 1).drop_last() =~= tv.take(i as int));
        let ghost before = strings_view(r@);
        if eq_ignore_ascii_case_exec(&chars_of(tree[i].label.as_str()), &fc) {
            r.push(tree[i].tooltip.clone());
            assert(strings_view(r@) =~= before.push(tv[i as int].tooltip));
        } else {
            assert(before + Seq::<Seq<char>>::empty() =~= before);
        }
        i = i + 1;
    }
    assert(tv.take(i as int) =~= tv);
    r
}

/// The positions of the nodes whose id is `id`.
pub fn nodes_with_id(tree: &Vec<Node>, id: &str) -> (r: Vec<usize>)
    ensures
        r@ == positions_of(tree_view(tree@), id@),
{
    let ghost tv = tree_view(tree@);
    let ic = chars_of(id);
    let mut r: Vec<usize> = Vec::new();
    let mut i: usize = 0;
    assert(tv.take(0) =~= Seq::<NodeView>::empty());
    while i < tree.len()
        invariant
            tv == tree_view(tree@),
            ic@ == id@,
            i <= tv.len(),
            r@ == positions_of(tv.take(i as int), id@),
        decreases tree.len() - i,
    {
        assert(tv.take(i + 1).drop_last() =~= tv.take(i as int));
        if chars_eq(&chars_of(tree[i].id.as_str()), &ic) {
            r.push(i);
        } else {
            assert(r@ + Seq::<usize>::empty() =~= r@);
        }
        i = i + 1;
    }
    assert(tv.take(i as int) =~= tv);
    r
}

/// `s` padded with spaces to 34 characters, as `{:34}` prints it.
pub open spec fn pad34(s: Seq<char>) -> Seq<char> {
    if s.len() < 34 {
        s + Seq::new((34 - s.len()) as nat, |i: int| ' ')
    } else {
        s
    }
}

/// A line of the form `{:34}{}`: a padded title and a count.
pub open spec fn count_line(title: Seq<char>, n: nat) -> Seq<char> {
    pad34(title) + decimal(n)
}

/// A padded title followed by a count.
pub fn count_line_exec(title: &str, n: usize) -> (r: String)
    ensures
        r@ == count_line(title@, n as nat),
{
    let mut v = chars_of(title);
    let ghost t = v@;
    while v.len() < 34
        invariant
            t == title@,
            t.len() <= v@.len(),
            v@.len() <= 34 || v@ == t,
            v@ == t + Seq::new((v@.len() - t.len()) as nat, |i: int| ' '),
        decreases 34 - v.len(),
    {
        let ghost before = v@;
        v.push(' ');
        assert(v@ =~= t + Seq::new((v@.len() - t.len()) as nat, |i: int| ' '));
    }
    proof {
        if t.len() < 34 {
            assert(v@ =~= t + Seq::new((34 - t.len()) as nat, |i: int| ' '));
        } else {
            assert(v@ =~= t);
        }
    }
    append_chars(&mut v, &decimal_exec(n as u64));
    string_of(v.as_slice())
}

/// `lines` lists, sorted and without repetitions, the tooltips of the
/// nodes whose label is `filter` up to ASCII case, then a line counting
/// them.
pub open spec fn filter_count_output(tree: Seq<NodeView>, filter: Seq<char>, lines: Seq<Seq<char>>) -> bool {
    &&& lines.len() >= 1
    &&& strictly_sorted(lines.drop_last())
    &&& lines.drop_last().to_set() == loose_tooltips(tree, filter).to_set()
    &&& lines.last() == count_line("N.ro "@ + filter, (lines.len() - 1) as nat)
}

/// The lines that list the distinct tooltips of the nodes whose label is
/// `filter` up to ASCII case, with their count.
pub fn filter_count_lines(tree: &Vec<Node>, filter: &str) -> (r: Vec<String>)
    ensures
        filter_count_output(tree_view(tree@), filter@, strings_view(r@)),
{
    let tooltips = loose_node_tooltips(tree, filter);
    let ghost tt = strings_view(tooltips@);
    let mut lines: Vec<String> = Vec::new();
    let mut i: usize = 0;
    assert(strings_view(lines@).to_set() =~= tt.take(0).to_set());
    while i < tooltips.len()
        invariant
            tt == strings_view(tooltips@),
            i <= tt.len(),
            strictly_sorted(strings_view(lines@)),
            strings_view(lines@).to_set() == tt.take(i as int).to_set(),
            lines@.len() <= i,
        decreases tooltips.len() - i,
    {
        insert_sorted(&mut lines, tooltips[i].clone());
        assert(tt.take(i + 1).to_set() =~= tt.take(i as int).to_set().insert(tt[i as int])) by {
            assert(tt.take(i + 1) =~= tt.take(i as int).push(tt[i as int]));
            crate::order::lemma_push_to_set(tt.take(i as int), tt[i as int]);
        }
        proof {
            crate::order::lemma_sorted_len_bound(strings_view(lines@), tt.take(i + 1));
        }
        i = i + 1;
    }
    assert(tt.take(i as int) =~= tt);
    let mut title = chars_of("N.ro ");
    append_chars(&mut title, &chars_of(filter));
    let title_s = string_of(title.as_slice());
    let count = lines.len();
    let ghost body = strings_view(lines@);
    lines.push(count_line_exec(title_s.as_str(), count));
    assert(strings_view(lines@).drop_last() =~= body);
    lines
}


/// The ids of all nodes, in order.
pub open spec fn all_ids(tree: Seq<NodeView>) -> Seq<Seq<char>> {
    tree.map_values(|n: NodeView| n.id)
}

/// `lines` is what the `list <arg>` command shows.
pub open spec fn list_output(
    arg: Seq<char>,
    tree: Seq<NodeView>,
    roots: Seq<Seq<char>>,
    lines: Seq<Seq<char>>,
) -> bool {
    if arg == "domande"@ {
        lines == labelled_ids(tree, "Scelta"@)
    } else if arg == "stelle"@ {
        lines == labelled_ids(tree, "Stella"@)
    } else if arg == "jump"@ {
        filter_count_output(tree, "Jump"@, lines)
    } else if arg == "servizi"@ {
        filter_count_output(tree, "Servizio Esterno"@, lines)
    } else if arg == "decisioni"@ {
        lines == labelled_ids(tree, "Choice"@)
    } else if arg == "opzioni"@ {
        lines == labelled_ids(tree, "Raggio"@)
    } else if arg == "impostazioni"@ {
        lines == labelled_ids(tree, "Scelta Utente"@)
    } else if arg == "radici"@ {
        lines == roots
    } else if arg == "diagnosi"@ {
        filter_count_output(tree, "Imposta Meta Diagnosi"@, lines)
    } else if arg == "riscontri"@ {
        filter_count_output(tree, "Imposta Meta Riscontro"@, lines)
    } else if arg == "cic"@ {
        filter_count_output(tree, "Verifica CIC"@, lines)
    } else {
        lines == all_ids(tree)
    }
}

/// The lines the `list <arg>` command shows.
pub fn list(arg: &str, tree: &Vec<Node>, roots: &Vec<String>) -> (r: Vec<String>)
    ensures
        list_output(arg@, tree_view(tree@), strings_view(roots@), strings_view(r@)),
{
    let a = chars_of(arg);
    if chars_eq_str(&a, "domande") {
        labelled_node_ids(tree, "Scelta")
    } else if chars_eq_str(&a, "stelle") {
        labelled_node_ids(tree, "Stella")
    } else if chars_eq_str(&a, "jump") {
        filter_count_lines(tree, "Jump")
    } else if chars_eq_str(&a, "servizi") {
        filter_count_lines(tree, "Servizio Esterno")
    } else if chars_eq_str(&a, "decisioni") {
        labelled_node_ids(tree, "Choice")
    } else if chars_eq_str(&a, "opzioni") {
        labelled_node_ids(tree, "Raggio")
    } else if chars_eq_str(&a, "impostazioni") {
        labelled_node_ids(tree, "Scelta Utente")
    } else if chars_eq_str(&a, "radici") {
        let r = roots.clone();
        assert(strings_view(r@) =~= strings_view(roots@));
        r
    } else if chars_eq_str(&a, "diagnosi") {
        filter_count_lines(tree, "Imposta Meta Diagnosi")
    } else if chars_eq_str(&a, "riscontri") {
        filter_count_lines(tree, "Imposta Meta Riscontro")
    } else if chars_eq_str(&a, "cic") {
        filter_count_lines(tree, "Verifica CIC")
    } else {
        let ghost tv = tree_view(tree@);
        let mut r: Vec<String> = Vec::new();
        let mut i: usize = 0;
        while i < tree.len()
            invariant
                tv == tree_view(tree@),
                i <= tv.len(),
                strings_view(r@) == all_ids(tv.take(i as int)),
            decreases tree.len() - i,
        {
            let ghost before = strings_view(r@);
            r.push(tree[i].id.clone());
            assert(strings_view(r@) =~= before.push(tv[i as int].id));
            assert(all_ids(tv.take(i + 1)) =~= all_ids(tv.take(i as int)).push(tv[i as int].id));
            i = i + 1;
        }
        assert(tv.take(i as int) =~= tv);
        r
    }
}

/// The number of nodes labelled `label`.
pub open spec fn count_labelled(tree: Seq<NodeView>, label: Seq<char>) -> nat {
    labelled_ids(tree, label).len()
}

/// What the `info` command shows.
#[derive(Debug)]
pub enum InfoReport {
    /// Lines counting the nodes of each kind.
    Summary(Vec<String>),
    /// The tooltips of the diagnosis nodes.
    Tooltips(Vec<String>),
    /// The positions of the nodes whose id was asked for.
    Nodes(Vec<usize>),
}

/// The counting lines of `info`, one per kind of node.
pub open spec fn summary_lines(tree: Seq<NodeView>) -> Seq<Seq<char>> {
    seq![
        count_line("N.ro Impostazioni"@, count_labelled(tree, "Scelta Utente"@)),
        count_line("N.ro Domande"@, count_labelled(tree, "Scelta"@)),
        count_line("N.ro Decisioni"@, count_labelled(tree, "Choice"@)),
        count_line("N.ro Jump"@, count_labelled(tree, "Jump"@)),
        count_line("N.ro Stelle"@, count_labelled(tree, "Stella"@)),
        count_line("N.ro Diagnosi"@, count_labelled(tree, "Imposta Meta Diagnosi"@)),
        count_line("N.ro Servizi"@, count_labelled(tree, "Servizio Esterno"@)),
        count_line("N.ro Riscontri"@, count_labelled(tree, "Imposta Meta Riscontro"@)),
        count_line("N.ro Cic"@, count_labelled(tree, "Verifica CIC"@)),
    ]
}

fn summary_line(tree: &Vec<Node>, title: &str, label: &str) -> (r: String)
    ensures
        r@ == count_line(title@, count_labelled(tree_view(tree@), label@)),
{
    let ids = labelled_node_ids(tree, label);
    count_line_exec(title, ids.len())
}

/// What the `info <arg>` command shows: with no argument the counts of
/// each kind of node, with `diagnosi` the tooltips of the diagnosis nodes,
/// otherwise the nodes with that id.
pub fn info(arg: &str, tree: &Vec<Node>) -> (r: InfoReport)
    ensures
        arg@.len() == 0 ==> (r matches InfoReport::Summary(lines) && strings_view(lines@)
            == summary_lines(tree_view(tree@))),
        arg@.len() != 0 && arg@ == "diagnosi"@ ==> (r matches InfoReport::Tooltips(t)
            && strings_view(t@) == labelled_tooltips(tree_view(tree@), "Imposta Meta Diagnosi"@)),
        arg@.len() != 0 && arg@ != "diagnosi"@ ==> (r matches InfoReport::Nodes(p) && p@
            == positions_of(tree_view(tree@), arg@)),
{
    if arg.is_empty() {
        let mut lines: Vec<String> = Vec::new();
        lines.push(summary_line(tree, "N.ro Impostazioni", "Scelta Utente"));
        lines.push(summary_line(tree, "N.ro Domande", "Scelta"));
        lines.push(summary_line(tree, "N.ro Decisioni", "Choice"));
        lines.push(summary_line(tree, "N.ro Jump", "Jump"));
        lines.push(summary_line(tree, "N.ro Stelle", "Stella"));
        lines.push(summary_line(tree, "N.ro Diagnosi", "Imposta Meta Diagnosi"));
        lines.push(summary_line(tree, "N.ro Servizi", "Servizio Esterno"));
        lines.push(summary_line(tree, "N.ro Riscontri", "Imposta Meta Riscontro"));
        lines.push(summary_line(tree, "N.ro Cic", "Verifica CIC"));
        assert(strings_view(lines@) =~= summary_lines(tree_view(tree@)));
        InfoReport::Summary(lines)
    } else if chars_eq_str(&chars_of(arg), "diagnosi") {
        InfoReport::Tooltips(labelled_node_tooltips(tree, "Imposta Meta Diagnosi"))
    } else {
        InfoReport::Nodes(nodes_with_id(tree, arg))
    }
}

/// The concatenation of the strings of `s`.
pub open spec fn concat(s: Seq<Seq<char>>) -> Seq<char>
    decreases s.len(),
{
    if s.len() == 0 {
        Seq::empty()
    } else {
        concat(s.drop_last()) + s.last()
    }
}

/// What the `test` command prints: `Diagnosi:` followed by the tooltips of
/// the first five diagnosis nodes (label compared up to ASCII case).
pub open spec fn diagnosis_summary(tree: Seq<NodeView>) -> Seq<char> {
    let t = loose_tooltips(tree, "Imposta Meta Diagnosi"@);
    "Diagnosi:"@ + concat(if t.len() > 5 { t.take(5) } else { t })
}

/// The line the `test` command prints.
pub fn test(arg: &str, tree: &Vec<Node>) -> (r: String)
    ensures
        r@ == diagnosis_summary(tree_view(tree@)),
{
    let t = loose_node_tooltips(tree, "Imposta Meta Diagnosi");
    let ghost tt = strings_view(t@);
    let limit = if t.len() > 5 { 5 } else { t.len() };
    let ghost lim_seq = if tt.len() > 5 { tt.take(5) } else { tt };
    let mut v = chars_of("Diagnosi:");
    let ghost head = v@;
    let mut i: usize = 0;
    assert(tt.take(0) =~= Seq::<Seq<char>>::empty());
    while i < limit
        invariant
            tt == strings_view(t@),
            limit <= tt.len(),
            lim_seq == tt.take(limit as int),
            i <= limit,
            v@ == head + concat(tt.take(i as int)),
        decreases limit - i,
    {
        append_chars(&mut v, &chars_of(t[i].as_str()));
        assert(tt.take(i + 1).drop_last() =~= tt.take(i as int));
        i = i + 1;
    }
    assert(tt.take(limit as int) =~= lim_seq);
    string_of(v.as_slice())
}

// ---------------------------------------------------------------------------
// What the listing and counting commands show
// ---------------------------------------------------------------------------

/// The nodes of `tree` whose label is `label`, in tree order.
pub open spec fn nodes_labelled(tree: Seq<NodeView>, label: Seq<char>) -> Seq<NodeView> {
    tree.filter(|n: NodeView| n.label == label)
}

/// The ids of `nodes`, in order.
pub open spec fn ids_of(nodes: Seq<NodeView>) -> Seq<Seq<char>> {
    nodes.map_values(|n: NodeView| n.id)
}

proof fn lemma_labelled_ids_are_filtered(tree: Seq<NodeView>, label: Seq<char>)
    ensures
        labelled_ids(tree, label) == ids_of(nodes_labelled(tree, label)),
    decreases tree.len(),
{
    reveal_with_fuel(Seq::filter, 1);
    if tree.len() > 0 {
        lemma_labelled_ids_are_filtered(tree.drop_last(), label);
        let f = tree.drop_last().filter(|n: NodeView| n.label == label);
        assert(nodes_labelled(tree.drop_last(), label) == f);
        if tree.last().label == label {
            assert(nodes_labelled(tree, label) == f.push(tree.last()));
            assert(ids_of(f.push(tree.last())) =~= ids_of(f).push(tree.last().id));
        } else {
            assert(nodes_labelled(tree, label) == f);
            assert(ids_of(f) + Seq::<Seq<char>>::empty() =~= ids_of(f));
        }
    }
}

/// What `list` shows for each kind of node: the ids of exactly the nodes
/// with the kind's label, in tree order (`domande` the "Scelta" nodes,
/// `stelle` the "Stella" nodes, `decisioni` the "Choice" nodes, `opzioni`
/// the "Raggio" nodes, `impostazioni` the "Scelta Utente" nodes); for
/// `radici` the roots; for an argument that names no kind, every id.
pub proof fn lemma_list_shows_kinds(arg: Seq<char>, tree: Seq<NodeView>, roots: Seq<Seq<char>>, lines: Seq<Seq<char>>)
    requires
        list_output(arg, tree, roots, lines),
    ensures
        arg == "domande"@ ==> lines == ids_of(tree.filter(|n: NodeView| n.label == "Scelta"@)),
        arg == "stelle"@ ==> lines == ids_of(tree.filter(|n: NodeView| n.label == "Stella"@)),
        arg == "decisioni"@ ==> lines == ids_of(tree.filter(|n: NodeView| n.label == "Choice"@)),
        arg == "opzioni"@ ==> lines == ids_of(tree.filter(|n: NodeView| n.label == "Raggio"@)),
        arg == "impostazioni"@ ==> lines == ids_of(tree.filter(|n: NodeView| n.label == "Scelta Utente"@)),
        arg == "radici"@ ==> lines == roots,
        arg.len() == 0 ==> lines == ids_of(tree),
{
    reveal_strlit("domande");
    reveal_strlit("stelle");
    reveal_strlit("jump");
    reveal_strlit("servizi");
    reveal_strlit("decisioni");
    reveal_strlit("opzioni");
    reveal_strlit("impostazioni");
    reveal_strlit("radici");
    reveal_strlit("diagnosi");
    reveal_strlit("riscontri");
    reveal_strlit("cic");
    lemma_labelled_ids_are_filtered(tree, "Scelta"@);
    lemma_labelled_ids_are_filtered(tree, "Stella"@);
    lemma_labelled_ids_are_filtered(tree, "Choice"@);
    lemma_labelled_ids_are_filtered(tree, "Raggio"@);
    lemma_labelled_ids_are_filtered(tree, "Scelta Utente"@);
    assert(all_ids(tree) =~= ids_of(tree));
    assert("domande"@.len() == 7 && "domande"@[0] == 'd');
    assert("stelle"@.len() == 6 && "stelle"@[0] == 's');
    assert("jump"@.len() == 4 && "jump"@[0] == 'j');
    assert("servizi"@.len() == 7 && "servizi"@[0] == 's');
    assert("decisioni"@.len() == 9 && "decisioni"@[0] == 'd');
    assert("opzioni"@.len() == 7 && "opzioni"@[0] == 'o');
    assert("impostazioni"@.len() == 12 && "impostazioni"@[0] == 'i');
    assert("radici"@.len() == 6 && "radici"@[0] == 'r');
    assert("diagnosi"@.len() == 8 && "diagnosi"@[0] == 'd');
    assert("riscontri"@.len() == 9 && "riscontri"@[0] == 'r');
    assert("cic"@.len() == 3 && "cic"@[0] == 'c');
    if arg == "domande"@ {
        assert(lines == labelled_ids(tree, "Scelta"@));
    }
    if arg == "stelle"@ {
        assert(arg != "domande"@);
        assert(lines == labelled_ids(tree, "Stella"@));
    }
    if arg == "decisioni"@ {
        assert(arg != "domande"@);
        assert(arg != "stelle"@);
        assert(arg != "jump"@);
        assert(arg != "servizi"@);
        assert(lines == labelled_ids(tree, "Choice"@));
    }
    if arg == "opzioni"@ {
        assert(arg != "domande"@);
        assert(arg != "stelle"@);
        assert(arg != "jump"@);
        assert(arg != "servizi"@);
        assert(arg != "decisioni"@);
        assert(lines == labelled_ids(tree, "Raggio"@));
    }
    if arg == "impostazioni"@ {
        assert(arg != "domande"@);
        assert(arg != "stelle"@);
        assert(arg != "jump"@);
        assert(arg != "servizi"@);
        assert(arg != "decisioni"@);
        assert(arg != "opzioni"@);
        assert(lines == labelled_ids(tree, "Scelta Utente"@));
    }
    if arg == "radici"@ {
        assert(arg != "domande"@);
        assert(arg != "stelle"@);
        assert(arg != "jump"@);
        assert(arg != "servizi"@);
        assert(arg != "decisioni"@);
        assert(arg != "opzioni"@);
        assert(arg != "impostazioni"@);
        assert(lines == roots);
    }
    if arg.len() == 0 {
        assert(arg != "domande"@);
        assert(arg != "stelle"@);
        assert(arg != "jump"@);
        assert(arg != "servizi"@);
        assert(arg != "decisioni"@);
        assert(arg != "opzioni"@);
        assert(arg != "impostazioni"@);
        assert(arg != "radici"@);
        assert(arg != "diagnosi"@);
        assert(arg != "riscontri"@);
        assert(arg != "cic"@);
        assert(lines == all_ids(tree));
    }
}

/// The counting lines of `info`: each kind's title padded to 34 characters,
/// then the number of nodes with exactly that kind's label ("Scelta
/// Utente", "Scelta", "Choice", "Jump", "Stella", "Imposta Meta Diagnosi",
/// "Servizio Esterno", "Imposta Meta Riscontro", "Verifica CIC").
pub proof fn lemma_info_counts_kinds(tree: Seq<NodeView>)
    ensures
        summary_lines(tree).len() == 9,
        summary_lines(tree)[0] == count_line("N.ro Impostazioni"@, tree.filter(|n: NodeView| n.label == "Scelta Utente"@).len()),
        summary_lines(tree)[1] == count_line("N.ro Domande"@, tree.filter(|n: NodeView| n.label == "Scelta"@).len()),
        summary_lines(tree)[2] == count_line("N.ro Decisioni"@, tree.filter(|n: NodeView| n.label == "Choice"@).len()),
        summary_lines(tree)[3] == count_line("N.ro Jump"@, tree.filter(|n: NodeView| n.label == "Jump"@).len()),
        summary_lines(tree)[4] == count_line("N.ro Stelle"@, tree.filter(|n: NodeView| n.label == "Stella"@).len()),
        summary_lines(tree)[5] == count_line("N.ro Diagnosi"@, tree.filter(|n: NodeView| n.label == "Imposta Meta Diagnosi"@).len()),
        summary_lines(tree)[6] == count_line("N.ro Servizi"@, tree.filter(|n: NodeView| n.label == "Servizio Esterno"@).len()),
        summary_lines(tree)[7] == count_line("N.ro Riscontri"@, tree.filter(|n: NodeView| n.label == "Imposta Meta Riscontro"@).len()),
        summary_lines(tree)[8] == count_line("N.ro Cic"@, tree.filter(|n: NodeView| n.label == "Verifica CIC"@).len()),
{
    lemma_labelled_ids_are_filtered(tree, "Scelta Utente"@);
    lemma_labelled_ids_are_filtered(tree, "Scelta"@);
    lemma_labelled_ids_are_filtered(tree, "Choice"@);
    lemma_labelled_ids_are_filtered(tree, "Jump"@);
    lemma_labelled_ids_are_filtered(tree, "Stella"@);
    lemma_labelled_ids_are_filtered(tree, "Imposta Meta Diagnosi"@);
    lemma_labelled_ids_are_filtered(tree, "Servizio Esterno"@);
    lemma_labelled_ids_are_filtered(tree, "Imposta Meta Riscontro"@);
    lemma_labelled_ids_are_filtered(tree, "Verifica CIC"@);
}

} // verus!
