use vstd::prelude::*;

verus! {

use vstd::string::StrSliceExecFns;
use vstd::string::StringExecFns;
use crate::strings::{
    split_on, join_spaces, dir_prefix_of, lex_le, split_tokens, join_tokens, push_char, str_eq,
    starts_with_str, str_le,
};

/// One completion candidate: the label shown to the user and the full line
/// installed when the candidate is accepted. Two choices with the same label
/// are indistinguishable.
#[derive(Clone, Debug)]
pub struct CompletionChoice {
    pub label: String,
    pub completion: String,
}

impl PartialEq for CompletionChoice {
    fn eq(&self, other: &Self) -> (r: bool) {
        str_eq(self.label.as_str(), other.label.as_str())
    }
}

impl vstd::std_specs::cmp::PartialEqSpecImpl for CompletionChoice {
    open spec fn obeys_eq_spec() -> bool {
        true
    }

    open spec fn eq_spec(&self, other: &Self) -> bool {
        self.label@ == other.label@
    }
}

impl Eq for CompletionChoice {}

/// Whether completion targets executable names or filesystem paths.
#[derive(PartialEq, Eq, Structural, Clone, Copy, Debug)]
pub enum CompletionType {
    Executable,
    File,
}

/// The command and its arguments, as split from one input line.
pub struct CommandArguments {
    pub command: String,
    pub arguments: Vec<String>,
}

/// One entry of a directory listing, reduced to the values the completion
/// rules read: its name, whether it is a directory, and its permission bits.
pub struct DirEntry {
    pub name: String,
    pub is_dir: bool,
    pub mode: u32,
}

/// The normalized line a command and its arguments print as: the command,
/// one space, then the arguments joined with single spaces.
pub open spec fn line_of(cmd: Seq<char>, args: Seq<Seq<char>>) -> Seq<char> {
    cmd + seq![' '] + join_spaces(args)
}

impl CommandArguments {
    /// The normalized line: command and arguments joined with single spaces.
    pub fn to_line(&self) -> (r: String)
        ensures
            r@ == line_of(self.command@, self.arguments.deep_view()),
    {
        let mut r = self.command.clone();
        push_char(&mut r, ' ');
        let joined = join_tokens(&self.arguments);
        r.append(joined.as_str());
        r
    }
}

/// Splits an input line on single spaces: the first token is the command,
/// the rest are the arguments, empty tokens included.
pub fn build_command_arguments(input_command: &str) -> (r: CommandArguments)
    ensures
        r.command@ == split_on(input_command@, ' ')[0],
        r.arguments.deep_view() == split_on(input_command@, ' ').drop_first(),
{
    let toks = split_tokens(input_command, ' ');
    proof {
        crate::strings::lemma_split_on_len(input_command@, ' ');
    }
    let command = toks[0].clone();
    let mut arguments: Vec<String> = Vec::new();
    let mut i: usize = 1;
    while i < toks.len()
        invariant
            1 <= i <= toks@.len(),
            toks.deep_view() == split_on(input_command@, ' '),
            toks.deep_view().len() >= 1,
            arguments.deep_view() =~= toks.deep_view().drop_first().take(i - 1),
        decreases toks@.len() - i,
    {
        proof {
            assert(arguments.deep_view().len() == arguments@.len());
            assert(arguments@.len() == i - 1);
        }
        arguments.push(toks[i].clone());
        proof {
            let adv = arguments.deep_view();
            let goal = toks.deep_view().drop_first().take(i as int);
            assert(adv.len() == arguments@.len());
            assert(arguments@.len() == i);
            assert(goal.len() == i);
            assert(adv.len() == goal.len());
            assert forall|j: int| 0 <= j < adv.len() implies adv[j] == goal[j] by {
                if j < i - 1 {
                    assert(adv[j] == arguments@[j]@);
                } else {
                    assert(arguments@[j] == toks@[i as int]);
                }
            }
            assert(adv =~= goal);
        }
        i = i + 1;
    }
    proof {
        let dv = toks.deep_view();
        assert(dv.drop_first().take(i - 1) =~= dv.drop_first());
    }
    CommandArguments { command, arguments }
}

/// Path completion applies as soon as any argument is present, even an empty
/// one from a trailing space; otherwise executable completion applies.
pub fn get_completion_type(command_args: &CommandArguments) -> (t: CompletionType)
    ensures
        t == CompletionType::File <==> command_args.arguments@.len() > 0,
        t == CompletionType::Executable <==> command_args.arguments@.len() == 0,
{
    if command_args.arguments.len() > 0 {
        CompletionType::File
    } else {
        CompletionType::Executable
    }
}

/// Every line without a space selects executable completion, and every line
/// with at least one space, a trailing one included, selects path completion:
/// the parsed argument list is empty exactly when the line holds no space.
pub proof fn lemma_mode_selected_by_space(line: Seq<char>)
    ensures
        split_on(line, ' ').len() == 1 <==> (forall|i: int| 0 <= i < line.len() ==> line[i] != ' '),
        split_on(line, ' ').drop_first().len() == 0 <==> (forall|i: int|
            0 <= i < line.len() ==> line[i] != ' '),
{
    crate::strings::lemma_split_on_single(line, ' ');
    crate::strings::lemma_split_on_len(line, ' ');
}

/// Executable completion never yields an entry whose execute permission bits
/// are all unset: every label it yields names an entry of the listing whose
/// name starts with the prefix and which carries an execute permission bit.
pub proof fn lemma_executable_labels_sound(entries: Seq<DirEntry>, prefix: Seq<char>, i: int)
    requires
        0 <= i < executable_labels(entries, prefix).len(),
    ensures
        exists|j: int|
            0 <= j < entries.len() && executable_matches(#[trigger] entries[j], prefix)
                && entries[j].name@ == executable_labels(entries, prefix)[i],
    decreases entries.len(),
{
    if entries.len() > 0 {
        let rest = executable_labels(entries.drop_last(), prefix);
        if executable_matches(entries.last(), prefix) && i == rest.len() {
            assert(entries[entries.len() - 1] == entries.last());
        } else {
            lemma_executable_labels_sound(entries.drop_last(), prefix, i);
            let j = choose|j: int|
                0 <= j < entries.drop_last().len() && executable_matches(
                    #[trigger] entries.drop_last()[j],
                    prefix,
                ) && entries.drop_last()[j].name@ == rest[i];
            assert(entries[j] == entries.drop_last()[j]);
        }
    }
}

/// The substring of `path` up to and including its last `/`, if any.
pub fn directory_from_path(path: &str) -> (r: Option<String>)
    ensures
        r is None <==> dir_prefix_of(path@) is None,
        r matches Some(p) ==> dir_prefix_of(path@) == Some(p@),
{
    let n = path.unicode_len();
    let mut i: usize = n;
    proof {
        assert(path@.take(n as int) =~= path@);
    }
    while i > 0
        invariant
            i <= n,
            n == path@.len(),
            dir_prefix_of(path@) == dir_prefix_of(path@.take(i as int)),
        decreases i,
    {
        let c = path.get_char(i - 1);
        proof {
            assert(path@.take(i as int).last() == path@[i - 1]);
            assert(path@.take(i as int).drop_last() =~= path@.take(i as int - 1));
        }
        if c == '/' {
            let p = path.substring_char(0, i).to_owned();
            proof {
                assert(p@ =~= path@.take(i as int));
            }
            return Some(p);
        }
        i = i - 1;
    }
    proof {
        assert(path@.take(0) =~= Seq::<char>::empty());
    }
    None
}

/// The name an entry is displayed under: directories get a trailing `/` so
/// they can be completed one level deeper at once.
pub open spec fn display_name(name: Seq<char>, is_dir: bool) -> Seq<char> {
    if is_dir {
        name + seq!['/']
    } else {
        name
    }
}

/// Builds the display name of a directory entry: the file name, with `/`
/// appended when the entry is a directory.
pub fn path_to_name(name: &str, is_dir: bool) -> (r: String)
    ensures
        r@ == display_name(name@, is_dir),
{
    let mut r = name.to_owned();
    if is_dir {
        push_char(&mut r, '/');
        proof {
            assert(name@.push('/') =~= name@ + seq!['/']);
        }
    }
    r
}

/// The argument list with its last argument replaced by the completion; a
/// missing last argument means the completion is appended instead.
pub open spec fn replace_last_arg(args: Seq<Seq<char>>, completion: Seq<char>) -> Seq<Seq<char>> {
    if args.len() == 0 {
        seq![completion]
    } else {
        args.drop_last().push(completion)
    }
}

/// The full line that installs `completion` in place of the last argument.
pub open spec fn full_completion_line(
    cmd: Seq<char>,
    args: Seq<Seq<char>>,
    completion: Seq<char>,
) -> Seq<char> {
    line_of(cmd, replace_last_arg(args, completion))
}

/// Builds the full replacement line for one completion: the last argument is
/// popped, the completion pushed, and the line re-joined with single spaces.
pub fn path_full_completion(args: &CommandArguments, completion: String) -> (r: String)
    ensures
        r@ == full_completion_line(args.command@, args.arguments.deep_view(), completion@),
{
    let mut new_args: Vec<String> = Vec::new();
    let keep = if args.arguments.len() == 0 {
        0
    } else {
        args.arguments.len() - 1
    };
    let mut i: usize = 0;
    while i < keep
        invariant
            i <= keep,
            keep <= args.arguments@.len(),
            new_args.deep_view() =~= args.arguments.deep_view().take(i as int),
        decreases keep - i,
    {
        proof {
            assert(new_args.deep_view().len() == new_args@.len());
            assert(new_args@.len() == i);
        }
        new_args.push(args.arguments[i].clone());
        proof {
            let ndv = new_args.deep_view();
            let goal = args.arguments.deep_view().take(i + 1);
            assert(ndv.len() == new_args@.len());
            assert(new_args@.len() == i + 1);
            assert(goal.len() == i + 1);
            assert forall|j: int| 0 <= j < ndv.len() implies ndv[j] == goal[j] by {
                if j < i {
                    assert(ndv[j] == new_args@[j]@);
                } else {
                    assert(new_args@[j] == args.arguments@[i as int]);
                }
            }
            assert(ndv =~= goal);
        }
        i = i + 1;
    }
    new_args.push(completion);
    proof {
        let av = args.arguments.deep_view();
        if av.len() == 0 {
            assert(new_args.deep_view() =~= replace_last_arg(av, new_args.deep_view().last()));
        } else {
            assert(av.take(av.len() - 1) =~= av.drop_last());
            assert(new_args.deep_view() =~= av.drop_last().push(new_args.deep_view().last()));
        }
    }
    let mut r = args.command.clone();
    push_char(&mut r, ' ');
    let joined = join_tokens(&new_args);
    r.append(joined.as_str());
    r
}

/// The labels of a sequence of completion choices, in order.
pub open spec fn labels_of(cs: Seq<CompletionChoice>) -> Seq<Seq<char>> {
    cs.map_values(|c: CompletionChoice| c.label@)
}

/// A directory entry survives executable completion when its name starts
/// with the prefix and any execute permission bit is set.
pub open spec fn executable_matches(e: DirEntry, prefix: Seq<char>) -> bool {
    prefix.is_prefix_of(e.name@) && e.mode & 0o111 != 0
}

/// The names of the entries of one directory that survive executable
/// completion, in listing order.
pub open spec fn executable_labels(entries: Seq<DirEntry>, prefix: Seq<char>) -> Seq<Seq<char>>
    decreases entries.len(),
{
    if entries.len() == 0 {
        Seq::<Seq<char>>::empty()
    } else {
        let rest = executable_labels(entries.drop_last(), prefix);
        if executable_matches(entries.last(), prefix) {
            rest.push(entries.last().name@)
        } else {
            rest
        }
    }
}

/// Keeps the entries of one search directory whose name starts with the
/// prefix and which carry at least one execute permission bit; each survivor
/// becomes a choice whose label and completion are both the bare name.
pub fn executables_in_path_with_prefix(entries: &Vec<DirEntry>, prefix: &str) -> (r: Vec<
    CompletionChoice,
>)
    ensures
        labels_of(r@) == executable_labels(entries@, prefix@),
        forall|i: int| 0 <= i < r@.len() ==> (#[trigger] r@[i]).completion@ == r@[i].label@,
{
    let mut r: Vec<CompletionChoice> = Vec::new();
    let mut i: usize = 0;
    while i < entries.len()
        invariant
            i <= entries@.len(),
            labels_of(r@) =~= executable_labels(entries@.take(i as int), prefix@),
            forall|j: int| 0 <= j < r@.len() ==> (#[trigger] r@[j]).completion@ == r@[j].label@,
        decreases entries@.len() - i,
    {
        proof {
            assert(entries@.take(i as int + 1).drop_last() =~= entries@.take(i as int));
            assert(entries@.take(i as int + 1).last() == entries@[i as int]);
        }
        let e = &entries[i];
        if starts_with_str(e.name.as_str(), prefix) && e.mode & 0o111 != 0 {
            let label = e.name.clone();
            let completion = e.name.clone();
            r.push(CompletionChoice { label, completion });
        }
        proof {
            assert(labels_of(r@) =~= executable_labels(entries@.take(i as int + 1), prefix@));
        }
        i = i + 1;
    }
    proof {
        assert(entries@.take(entries@.len() as int) =~= entries@);
    }
    r
}

/// The last argument of the line, or the empty string when there is none.
pub open spec fn current_arg_of(args: Seq<Seq<char>>) -> Seq<char> {
    if args.len() == 0 {
        Seq::<char>::empty()
    } else {
        args.last()
    }
}

/// The label a directory entry completes to: its display name with the
/// directory prefix of the current argument re-attached.
pub open spec fn path_label(e: DirEntry, pfx: Option<Seq<char>>) -> Seq<char> {
    match pfx {
        Option::None => display_name(e.name@, e.is_dir),
        Option::Some(p) => p + display_name(e.name@, e.is_dir),
    }
}

/// The labels of the entries whose re-prefixed display name starts with the
/// current argument, in listing order.
pub open spec fn path_labels(
    entries: Seq<DirEntry>,
    pfx: Option<Seq<char>>,
    cur: Seq<char>,
) -> Seq<Seq<char>>
    decreases entries.len(),
{
    if entries.len() == 0 {
        Seq::<Seq<char>>::empty()
    } else {
        let rest = path_labels(entries.drop_last(), pfx, cur);
        let lbl = path_label(entries.last(), pfx);
        if cur.is_prefix_of(lbl) {
            rest.push(lbl)
        } else {
            rest
        }
    }
}

/// Path completion over the listing of the directory named by the current
/// argument's directory prefix: each surviving entry yields its full
/// relative path as label, and as completion the line with the last
/// argument replaced by that path.
pub fn autocomplete_path(command_args: &CommandArguments, entries: &Vec<DirEntry>) -> (r: Vec<
    CompletionChoice,
>)
    ensures
        ({
            let args = command_args.arguments.deep_view();
            let cur = current_arg_of(args);
            &&& labels_of(r@) == path_labels(entries@, dir_prefix_of(cur), cur)
            &&& forall|i: int|
                0 <= i < r@.len() ==> (#[trigger] r@[i]).completion@ == full_completion_line(
                    command_args.command@,
                    args,
                    r@[i].label@,
                )
        }),
{
    let current_arg: String = if command_args.arguments.len() == 0 {
        String::new()
    } else {
        command_args.arguments[command_args.arguments.len() - 1].clone()
    };
    proof {
        let args = command_args.arguments.deep_view();
        assert(args.len() == command_args.arguments@.len());
        if args.len() > 0 {
            assert(args.last() == command_args.arguments@[args.len() - 1]@);
        }
        assert(current_arg@ == current_arg_of(args));
    }
    let prefix = directory_from_path(current_arg.as_str());
    let ghost pfx_spec = dir_prefix_of(current_arg@);
    let mut r: Vec<CompletionChoice> = Vec::new();
    let mut i: usize = 0;
    while i < entries.len()
        invariant
            i <= entries@.len(),
            current_arg@ == current_arg_of(command_args.arguments.deep_view()),
            pfx_spec == dir_prefix_of(current_arg@),
            prefix is None <==> pfx_spec is None,
            prefix matches Some(p) ==> pfx_spec == Some(p@),
            labels_of(r@) =~= path_labels(entries@.take(i as int), pfx_spec, current_arg@),
            forall|j: int|
                0 <= j < r@.len() ==> (#[trigger] r@[j]).completion@ == full_completion_line(
                    command_args.command@,
                    command_args.arguments.deep_view(),
                    r@[j].label@,
                ),
        decreases entries@.len() - i,
    {
        proof {
            assert(entries@.take(i as int + 1).drop_last() =~= entries@.take(i as int));
            assert(entries@.take(i as int + 1).last() == entries@[i as int]);
        }
        let e = &entries[i];
        let disp = path_to_name(e.name.as_str(), e.is_dir);
        let full: String = match &prefix {
            Option::None => disp,
            Option::Some(p) => {
                let mut f = p.clone();
                f.append(disp.as_str());
                f
            },
        };
        proof {
            assert(full@ == path_label(entries@[i as int], pfx_spec));
        }
        if starts_with_str(full.as_str(), current_arg.as_str()) {
            let completion = path_full_completion(command_args, full.clone());
            r.push(CompletionChoice { label: full, completion });
        }
        proof {
            assert(labels_of(r@) =~= path_labels(
                entries@.take(i as int + 1),
                pfx_spec,
                current_arg@,
            ));
        }
        i = i + 1;
    }
    proof {
        assert(entries@.take(entries@.len() as int) =~= entries@);
    }
    r
}

/// The choices are ordered by label, duplicates allowed.
pub open spec fn sorted_by_label(cs: Seq<CompletionChoice>) -> bool {
    forall|i: int, j: int|
        0 <= i < j < cs.len() ==> lex_le(#[trigger] cs[i].label@, #[trigger] cs[j].label@)
}

/// No two choices share a label.
pub open spec fn unique_labels(cs: Seq<CompletionChoice>) -> bool {
    forall|i: int, j: int|
        0 <= i < j < cs.len() ==> (#[trigger] cs[i].label@) != (#[trigger] cs[j].label@)
}

/// Sorts choices by label, keeping the collection of choices itself.
pub fn sort_choices(input: Vec<CompletionChoice>) -> (r: Vec<CompletionChoice>)
    ensures
        sorted_by_label(r@),
        r@.to_multiset() == input@.to_multiset(),
{
    let mut r: Vec<CompletionChoice> = Vec::new();
    let mut i: usize = 0;
    proof {
        broadcast use vstd::seq_lib::group_to_multiset_ensures;

        assert(input@.take(0) =~= Seq::<CompletionChoice>::empty());
        assert(r@.to_multiset() =~= input@.take(0).to_multiset());
    }
    while i < input.len()
        invariant
            i <= input@.len(),
            sorted_by_label(r@),
            r@.to_multiset() == input@.take(i as int).to_multiset(),
        decreases input@.len() - i,
    {
        let item = CompletionChoice {
            label: input[i].label.clone(),
            completion: input[i].completion.clone(),
        };
        proof {
            assert(item == input@[i as int]);
        }
        // find the first position whose label does not stay below the item
        let mut p: usize = 0;
        while p < r.len() && str_le(r[p].label.as_str(), item.label.as_str())
            invariant
                p <= r@.len(),
                forall|k: int| 0 <= k < p ==> lex_le((#[trigger] r@[k]).label@, item.label@),
            decreases r@.len() - p,
        {
            p = p + 1;
        }
        proof {
            if p < r@.len() {
                assert(!lex_le(r@[p as int].label@, item.label@));
                crate::strings::lemma_lex_le_total(r@[p as int].label@, item.label@);
            }
            broadcast use vstd::seq_lib::group_to_multiset_ensures;

            crate::strings::lemma_insert_to_multiset(r@, p as int, item);
            assert(input@.take(i as int + 1) =~= input@.take(i as int).push(input@[i as int]));
            assert(input@.take(i as int + 1).to_multiset() =~= input@.take(
                i as int,
            ).to_multiset().insert(input@[i as int]));
        }
        let ghost old_r = r@;
        r.insert(p, item);
        proof {
            assert forall|a: int, b: int| 0 <= a < b < r@.len() implies lex_le(
                (#[trigger] r@[a]).label@,
                (#[trigger] r@[b]).label@,
            ) by {
                old_r.insert_ensures(p as int, item);
                if a < p && b == p {
                } else if a == p && b > p {
                    assert(r@[b] == old_r[b - 1]);
                    if b - 1 > p {
                        assert(!lex_le(old_r[p as int].label@, item.label@));
                        crate::strings::lemma_lex_le_total(old_r[p as int].label@, item.label@);
                        crate::strings::lemma_lex_le_transitive(
                            item.label@,
                            old_r[p as int].label@,
                            old_r[b - 1].label@,
                        );
                    }
                } else if a < p && b > p {
                    assert(r@[a] == old_r[a]);
                    assert(r@[b] == old_r[b - 1]);
                    if b - 1 == p {
                        assert(!lex_le(old_r[p as int].label@, item.label@));
                        crate::strings::lemma_lex_le_total(old_r[p as int].label@, item.label@);
                        crate::strings::lemma_lex_le_transitive(
                            old_r[a].label@,
                            item.label@,
                            old_r[b - 1].label@,
                        );
                    }
                }
            }
        }
        i = i + 1;
    }
    proof {
        assert(input@.take(input@.len() as int) =~= input@);
    }
    r
}

/// Removes all but the first of each run of equal labels from a sorted
/// choice list: the result is sorted, holds no label twice, keeps every
/// label of the input, and holds only choices of the input.
pub fn dedup_choices(input: &Vec<CompletionChoice>) -> (r: Vec<CompletionChoice>)
    requires
        sorted_by_label(input@),
    ensures
        sorted_by_label(r@),
        unique_labels(r@),
        forall|j: int| 0 <= j < r@.len() ==> input@.contains(#[trigger] r@[j]),
        forall|k: int|
            0 <= k < input@.len() ==> exists|j: int|
                0 <= j < r@.len() && (#[trigger] r@[j]).label@ == (#[trigger] input@[k]).label@,
{
    let mut r: Vec<CompletionChoice> = Vec::new();
    let mut i: usize = 0;
    while i < input.len()
        invariant
            i <= input@.len(),
            sorted_by_label(input@),
            sorted_by_label(r@),
            unique_labels(r@),
            r@.len() == 0 <==> i == 0,
            i > 0 ==> r@.len() > 0 && r@.last().label@ == input@[i - 1].label@,
            forall|j: int| 0 <= j < r@.len() ==> input@.contains(#[trigger] r@[j]),
            forall|j: int| 0 <= j < r@.len() ==> lex_le((#[trigger] r@[j]).label@, r@.last().label@),
            forall|k: int|
                0 <= k < i ==> exists|j: int|
                    0 <= j < r@.len() && (#[trigger] r@[j]).label@ == (#[trigger] input@[k]).label@,
        decreases input@.len() - i,
    {
        let item = CompletionChoice {
            label: input[i].label.clone(),
            completion: input[i].completion.clone(),
        };
        proof {
            assert(item == input@[i as int]);
        }
        if i == 0 {
            r.push(item);
            proof {
                crate::strings::lemma_lex_le_reflexive(item.label@);
                assert(r@[0].label@ == input@[0].label@);
            }
        } else {
            let same = str_eq(r[r.len() - 1].label.as_str(), item.label.as_str());
            if !same {
                let ghost old_r = r@;
                proof {
                    assert(lex_le(input@[i - 1].label@, input@[i as int].label@));
                    assert forall|j: int| 0 <= j < old_r.len() implies (#[trigger] old_r[j]).label@
                        != item.label@ by {
                        if old_r[j].label@ == item.label@ {
                            assert(lex_le(old_r[j].label@, old_r.last().label@));
                            assert(lex_le(old_r.last().label@, item.label@)) by {
                                crate::strings::lemma_lex_le_transitive(
                                    old_r.last().label@,
                                    input@[i - 1].label@,
                                    item.label@,
                                );
                            }
                            crate::strings::lemma_lex_le_antisymmetric(
                                old_r.last().label@,
                                item.label@,
                            );
                        }
                    }
                    assert forall|j: int| 0 <= j < old_r.len() implies lex_le(
                        (#[trigger] old_r[j]).label@,
                        item.label@,
                    ) by {
                        crate::strings::lemma_lex_le_transitive(
                            old_r[j].label@,
                            old_r.last().label@,
                            item.label@,
                        );
                        assert(lex_le(old_r.last().label@, input@[i - 1].label@)
                            || old_r.last().label@ == input@[i - 1].label@);
                        crate::strings::lemma_lex_le_transitive(
                            old_r[j].label@,
                            input@[i - 1].label@,
                            item.label@,
                        );
                    }
                }
                r.push(item);
                proof {
                    crate::strings::lemma_lex_le_reflexive(item.label@);
                    assert forall|j: int| 0 <= j < r@.len() implies lex_le(
                        (#[trigger] r@[j]).label@,
                        r@.last().label@,
                    ) by {
                        if j < r@.len() - 1 {
                            assert(r@[j] == old_r[j]);
                        }
                    }
                    assert forall|k: int| 0 <= k <= i implies exists|j: int|
                        0 <= j < r@.len() && (#[trigger] r@[j]).label@ == (#[trigger] input@[k]).label@ by {
                        if k == i {
                            assert(r@[r@.len() - 1].label@ == input@[i as int].label@);
                        } else {
                            let j0 = choose|j: int|
                                0 <= j < old_r.len() && (#[trigger] old_r[j]).label@ == input@[k].label@;
                            assert(r@[j0] == old_r[j0]);
                        }
                    }
                }
            } else {
                proof {
                    assert(r@.last().label@ == input@[i as int].label@);
                    assert forall|k: int| 0 <= k <= i implies exists|j: int|
                        0 <= j < r@.len() && (#[trigger] r@[j]).label@ == (#[trigger] input@[k]).label@ by {
                        if k == i {
                            assert(r@[r@.len() - 1].label@ == input@[i as int].label@);
                        }
                    }
                }
            }
        }
        i = i + 1;
    }
    r
}

/// The executable-completion labels gathered over all search directories,
/// in directory order.
pub open spec fn executable_labels_all(dirs: Seq<Vec<DirEntry>>, prefix: Seq<char>) -> Seq<
    Seq<char>,
>
    decreases dirs.len(),
{
    if dirs.len() == 0 {
        Seq::<Seq<char>>::empty()
    } else {
        executable_labels_all(dirs.drop_last(), prefix) + executable_labels(dirs.last()@, prefix)
    }
}

/// The two label sequences hold the same labels, multiplicity aside.
pub open spec fn same_label_set(a: Seq<Seq<char>>, b: Seq<Seq<char>>) -> bool {
    (forall|i: int| 0 <= i < a.len() ==> b.contains(#[trigger] a[i])) && (forall|i: int|
        0 <= i < b.len() ==> a.contains(#[trigger] b[i]))
}

/// The one completion entry point: parses the line, selects the mode, runs
/// the matching provider over the supplied directory listings, and returns
/// the choices sorted by label with duplicate labels removed.
///
/// `exec_dirs` holds the listing of each search directory, in search order;
/// `arg_dir` holds the listing of the directory named by the current
/// argument's directory prefix, or `None` when it could not be listed, in
/// which case path completion yields no choices at all.
pub fn autocomplete(
    command: &str,
    exec_dirs: &Vec<Vec<DirEntry>>,
    arg_dir: &Option<Vec<DirEntry>>,
) -> (r: Option<Vec<CompletionChoice>>)
    ensures
        ({
            let toks = split_on(command@, ' ');
            let cmd = toks[0];
            let args = toks.drop_first();
            let cur = current_arg_of(args);
            &&& (r is None <==> (args.len() > 0 && arg_dir is None))
            &&& (r matches Some(cs) ==> {
                &&& sorted_by_label(cs@)
                &&& unique_labels(cs@)
                &&& (args.len() == 0 ==> same_label_set(
                    labels_of(cs@),
                    executable_labels_all(exec_dirs@, cmd),
                ) && (forall|i: int|
                    0 <= i < cs@.len() ==> (#[trigger] cs@[i]).completion@ == cs@[i].label@))
                &&& (args.len() > 0 ==> (arg_dir matches Some(entries) && same_label_set(
                    labels_of(cs@),
                    path_labels(entries@, dir_prefix_of(cur), cur),
                ) && (forall|i: int|
                    0 <= i < cs@.len() ==> (#[trigger] cs@[i]).completion@ == full_completion_line(
                        cmd,
                        args,
                        cs@[i].label@,
                    ))))
            })
        }),
{
    let command_args = build_command_arguments(command);
    let ctype = get_completion_type(&command_args);
    let ghost cmd = split_on(command@, ' ')[0];
    let ghost args = split_on(command@, ' ').drop_first();
    let ghost raw_labels: Seq<Seq<char>> = if args.len() == 0 {
        executable_labels_all(exec_dirs@, cmd)
    } else {
        match arg_dir {
            Option::None => Seq::<Seq<char>>::empty(),
            Option::Some(entries) => path_labels(
                entries@,
                dir_prefix_of(current_arg_of(args)),
                current_arg_of(args),
            ),
        }
    };
    let raw: Vec<CompletionChoice> = match ctype {
        CompletionType::File => {
            match arg_dir {
                Option::None => {
                    return Option::None;
                },
                Option::Some(entries) => autocomplete_path(&command_args, entries),
            }
        },
        CompletionType::Executable => {
            let mut all: Vec<CompletionChoice> = Vec::new();
            let mut d: usize = 0;
            proof {
                assert(exec_dirs@.take(0) =~= Seq::<Vec<DirEntry>>::empty());
                assert(labels_of(all@) =~= executable_labels_all(exec_dirs@.take(0), cmd));
            }
            while d < exec_dirs.len()
                invariant
                    d <= exec_dirs@.len(),
                    cmd == command_args.command@,
                    labels_of(all@) =~= executable_labels_all(exec_dirs@.take(d as int), cmd),
                    forall|i: int|
                        0 <= i < all@.len() ==> (#[trigger] all@[i]).completion@ == all@[i].label@,
                decreases exec_dirs@.len() - d,
            {
                let mut part = executables_in_path_with_prefix(
                    &exec_dirs[d],
                    command_args.command.as_str(),
                );
                let ghost old_all = all@;
                let ghost part_view = part@;
                all.append(&mut part);
                proof {
                    assert(all@ == old_all + part_view);
                    assert(labels_of(all@) =~= labels_of(old_all) + labels_of(part_view));
                    assert(exec_dirs@.take(d as int + 1).drop_last() =~= exec_dirs@.take(d as int));
                    assert(exec_dirs@.take(d as int + 1).last() == exec_dirs@[d as int]);
                    assert(labels_of(all@) =~= executable_labels_all(
                        exec_dirs@.take(d as int + 1),
                        cmd,
                    ));
                }
                d = d + 1;
            }
            proof {
                assert(exec_dirs@.take(exec_dirs@.len() as int) =~= exec_dirs@);
            }
            all
        },
    };
    proof {
        assert(labels_of(raw@) == raw_labels);
    }
    let ghost completion_of = |l: Seq<char>|
        if args.len() == 0 {
            l
        } else {
            full_completion_line(cmd, args, l)
        };
    proof {
        assert forall|i: int| 0 <= i < raw@.len() implies (#[trigger] raw@[i]).completion@
            == completion_of(raw@[i].label@) by {
            assert(labels_of(raw@)[i] == raw@[i].label@);
        }
    }
    let sorted = sort_choices(raw);
    let result = dedup_choices(&sorted);
    proof {
        broadcast use vstd::seq_lib::group_to_multiset_ensures;

        let ghost rl = labels_of(result@);
        assert forall|j: int| 0 <= j < result@.len() implies raw_labels.contains(
            (#[trigger] result@[j]).label@,
        ) && result@[j].completion@ == completion_of(result@[j].label@) by {
            assert(sorted@.contains(result@[j]));
            assert(sorted@.to_multiset().count(result@[j]) > 0);
            let k = choose|k: int| 0 <= k < raw@.len() && raw@[k] == result@[j];
            assert(labels_of(raw@)[k] == raw@[k].label@);
        }
        assert forall|i: int| 0 <= i < rl.len() implies raw_labels.contains(#[trigger] rl[i]) by {
            assert(rl[i] == result@[i].label@);
        }
        assert forall|i: int| 0 <= i < raw_labels.len() implies rl.contains(
            #[trigger] raw_labels[i],
        ) by {
            assert(labels_of(raw@)[i] == raw@[i].label@);
            assert(raw@.to_multiset().count(raw@[i]) > 0);
            assert(sorted@.contains(raw@[i]));
            let k = choose|k: int| 0 <= k < sorted@.len() && sorted@[k] == raw@[i];
            let j = choose|j: int|
                0 <= j < result@.len() && (#[trigger] result@[j]).label@ == sorted@[k].label@;
            assert(rl[j] == result@[j].label@);
        }
        assert forall|i: int| 0 <= i < result@.len() implies ((args.len() == 0
            ==> (#[trigger] result@[i]).completion@ == result@[i].label@) && (args.len() > 0
            ==> result@[i].completion@ == full_completion_line(cmd, args, result@[i].label@))) by {
            assert(result@[i].completion@ == completion_of(result@[i].label@));
        }
    }
    Option::Some(result)
}

} // verus!
