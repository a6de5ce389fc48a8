//! What a benchmark run is asked to do: its configuration, its command line,
//! and the steps that follow.

use vstd::prelude::*;
use vstd::string::*;

use crate::literal::ascii_lower_all;
use crate::text::same_text;

verus! {

/// The configuration of a benchmark.
pub struct BenchmarkConfig {
    pub total_requests: usize,
    pub concurrency: usize,
    pub prompt_template: String,
    pub model: String,
    pub request_timeout_secs: u64,
}

/// The time limit of a request where the configuration names none.
pub fn default_request_timeout_secs() -> (secs: u64)
    ensures
        secs == 120,
{
    120
}

/// The time limit that a number of seconds sets: zero sets none.
pub open spec fn time_limit(secs: u64) -> Option<u64> {
    if secs == 0 {
        None
    } else {
        Some(secs)
    }
}

/// The time limit of a request in seconds; a limit of zero is none.
pub fn request_timeout(config: &BenchmarkConfig) -> (limit_secs: Option<u64>)
    ensures
        limit_secs == time_limit(config.request_timeout_secs),
        limit_secs == (if config.request_timeout_secs == 0 {
            None
        } else {
            Some(config.request_timeout_secs)
        }),
{
    if config.request_timeout_secs == 0 {
        None
    } else {
        Some(config.request_timeout_secs)
    }
}

/// A configuration that a benchmark can run with.
pub open spec fn is_runnable(config: BenchmarkConfig) -> bool {
    config.concurrency > 0 && config.total_requests > 0
}

/// Why a benchmark does not begin.
pub enum SetupError {
    /// The mode that was asked for, in lower case.
    UnknownMode(String),
    /// The framework that was asked for, in lower case.
    UnknownFramework(String),
    /// There is nothing to run, or nothing to run it with.
    NothingToRun,
}

impl SetupError {
    /// What is said of the error.
    pub open spec fn text(&self) -> Seq<char> {
        match self {
            SetupError::UnknownMode(mode) => "Unknown --mode '"@ + mode@
                + "'. Valid options: tool, llm, both"@,
            SetupError::UnknownFramework(framework) => "Unknown framework '"@ + framework@
                + "'. Valid options: autoagents, rig, all"@,
            SetupError::NothingToRun =>
                "Benchmark requires at least one request and concurrency > 0"@,
        }
    }

    /// The message of the error.
    pub fn message(&self) -> (message: String)
        ensures
            message@ == self.text(),
    {
        match self {
            SetupError::UnknownMode(mode) => {
                let mut message = "Unknown --mode '".to_owned();
                message.append(mode.as_str());
                message.append("'. Valid options: tool, llm, both");
                message
            },
            SetupError::UnknownFramework(framework) => {
                let mut message = "Unknown framework '".to_owned();
                message.append(framework.as_str());
                message.append("'. Valid options: autoagents, rig, all");
                message
            },
            SetupError::NothingToRun => {
                "Benchmark requires at least one request and concurrency > 0".to_owned()
            },
        }
    }
}

/// Accepts a configuration that a benchmark can run with.
pub fn check_config(config: &BenchmarkConfig) -> (res: Result<(), SetupError>)
    ensures
        res is Ok <==> is_runnable(*config),
        res matches Err(error) ==> error is NothingToRun,
{
    if config.concurrency == 0 || config.total_requests == 0 {
        Err(SetupError::NothingToRun)
    } else {
        Ok(())
    }
}

/// What a request does: it calls a tool, or only the language model.
#[derive(Clone, Copy, Debug, PartialEq, Eq, Structural)]
pub enum BenchmarkMode {
    Tool,
    LlmOnly,
}

/// The frameworks that are compared.
#[derive(Clone, Copy, Debug, PartialEq, Eq, Structural)]
pub enum Framework {
    AutoAgents,
    Rig,
}

/// The frameworks and modes that are asked for.
#[derive(Clone, Copy, Debug, PartialEq, Eq, Structural)]
pub struct Selection {
    pub run_autoagents: bool,
    pub run_rig: bool,
    pub run_llm: bool,
    pub run_tool: bool,
}

/// What `str::to_lowercase` makes of a text that is not all ASCII.
pub uninterp spec fn unicode_lowercase(text: Seq<char>) -> Seq<char>;

/// Only ASCII characters.
pub open spec fn is_all_ascii(s: Seq<char>) -> bool {
    forall|i: int| 0 <= i < s.len() ==> (#[trigger] s[i]) as int <= 127
}

/// `str::to_lowercase`: the text in lower case. Of ASCII characters only the
/// letters change; any other text gives what Unicode says, which depends on
/// the text alone.
pub assume_specification[ str::to_lowercase ](text: &str) -> (lower: String)
    ensures
        lower@ == (if is_all_ascii(text@) {
            ascii_lower_all(text@)
        } else {
            unicode_lowercase(text@)
        }),
;

/// A text in lower case.
pub open spec fn lowercase(text: Seq<char>) -> Seq<char> {
    if is_all_ascii(text) {
        ascii_lower_all(text)
    } else {
        unicode_lowercase(text)
    }
}

/// The views of some texts.
pub open spec fn texts(args: Seq<String>) -> Seq<Seq<char>> {
    args.map_values(|arg: String| arg@)
}

/// The framework argument: the first behind the program's name, else `all`.
pub open spec fn framework_arg(args: Seq<Seq<char>>) -> Seq<char> {
    if args.len() > 1 {
        args[1]
    } else {
        "all"@
    }
}

/// The mode argument: what follows the first `--mode` from `i` on that
/// anything follows.
pub open spec fn mode_arg_from(args: Seq<Seq<char>>, i: int) -> Option<Seq<char>>
    decreases args.len() - i,
{
    if i < 0 || i + 1 >= args.len() {
        None
    } else if args[i] == "--mode"@ {
        Some(args[i + 1])
    } else {
        mode_arg_from(args, i + 1)
    }
}

/// The words for a mode, and none at all.
pub open spec fn is_mode(mode: Option<Seq<char>>) -> bool {
    match mode {
        Some(m) => m == "tool"@ || m == "llm"@ || m == "both"@,
        None => true,
    }
}

/// The words for a framework.
pub open spec fn is_framework(framework: Seq<char>) -> bool {
    framework == "all"@ || framework == "autoagents"@ || framework == "rig"@
}

/// What two words ask for; no mode asks for both.
pub open spec fn selection_of(framework: Seq<char>, mode: Option<Seq<char>>) -> Selection {
    Selection {
        run_autoagents: framework == "all"@ || framework == "autoagents"@,
        run_rig: framework == "all"@ || framework == "rig"@,
        run_llm: mode != Some("tool"@),
        run_tool: mode != Some("llm"@),
    }
}

/// `res` is the answer to a framework word and a mode word. A wrong mode is
/// told before a wrong framework.
pub open spec fn answers_request(
    res: Result<Selection, SetupError>,
    framework: Seq<char>,
    mode: Option<Seq<char>>,
) -> bool {
    match res {
        Ok(selection) => {
            &&& is_mode(mode)
            &&& is_framework(framework)
            &&& selection == selection_of(framework, mode)
        },
        Err(SetupError::UnknownMode(m)) => !is_mode(mode) && mode == Some(m@),
        Err(SetupError::UnknownFramework(f)) => is_mode(mode) && !is_framework(framework)
            && framework == f@,
        Err(SetupError::NothingToRun) => false,
    }
}

/// The view of an optional text.
pub open spec fn optional_text(text: Option<&str>) -> Option<Seq<char>> {
    match text {
        Some(t) => Some(t@),
        None => None,
    }
}

/// The selection that two words in lower case ask for.
pub fn select(framework: &str, mode: Option<&str>) -> (res: Result<Selection, SetupError>)
    ensures
        answers_request(res, framework@, optional_text(mode)),
{
    proof {
        reveal_strlit("tool");
        reveal_strlit("llm");
        reveal_strlit("both");
        assert("tool"@[0] == 't' && "llm"@[0] == 'l' && "both"@[0] == 'b');
    }
    let (run_llm, run_tool) = match mode {
        Some(m) => {
            if same_text(m, "tool") {
                (false, true)
            } else if same_text(m, "llm") {
                (true, false)
            } else if same_text(m, "both") {
                (true, true)
            } else {
                return Err(SetupError::UnknownMode(m.to_owned()));
            }
        },
        None => (true, true),
    };
    let all = same_text(framework, "all");
    let run_autoagents = all || same_text(framework, "autoagents");
    let run_rig = all || same_text(framework, "rig");
    if !run_autoagents && !run_rig {
        return Err(SetupError::UnknownFramework(framework.to_owned()));
    }
    Ok(Selection { run_autoagents, run_rig, run_llm, run_tool })
}

/// Where the first `--mode` that anything follows stands.
fn find_mode(args: &Vec<String>) -> (at: Option<usize>)
    ensures
        match at {
            Some(i) => i + 1 < args.len() && mode_arg_from(texts(args@), 0) == Some(
                args@[i + 1]@,
            ),
            None => mode_arg_from(texts(args@), 0) is None,
        },
{
    let ghost all = texts(args@);
    let flag = "--mode".to_owned();
    let mut i: usize = 0;
    while i < args.len() && args.len() - i > 1
        invariant
            i <= args@.len(),
            all == texts(args@),
            flag@ == "--mode"@,
            mode_arg_from(all, 0) == mode_arg_from(all, i as int),
        decreases args@.len() - i,
    {
        if args[i] == flag {
            return Some(i);
        }
        i = i + 1;
    }
    None
}

/// The framework that a command line asks for, in lower case.
pub fn framework_word(args: &Vec<String>) -> (framework: String)
    ensures
        framework@ == lowercase(framework_arg(texts(args@))),
        framework@ == framework_asked(texts(args@)),
{
    if args.len() > 1 {
        args[1].as_str().to_lowercase()
    } else {
        "all".to_lowercase()
    }
}

/// The framework word of a command line, letter case aside.
pub open spec fn framework_asked(args: Seq<Seq<char>>) -> Seq<char> {
    lowercase(framework_arg(args))
}

/// The mode word of a command line, letter case aside.
pub open spec fn mode_asked(args: Seq<Seq<char>>) -> Option<Seq<char>> {
    match mode_arg_from(args, 0) {
        Some(mode) => Some(lowercase(mode)),
        None => None,
    }
}

/// What a command line asks for, letter case aside.
pub fn parse_args(args: &Vec<String>) -> (res: Result<Selection, SetupError>)
    ensures
        answers_request(
            res,
            lowercase(framework_arg(texts(args@))),
            (match mode_arg_from(texts(args@), 0) {
                Some(mode) => Some(lowercase(mode)),
                None => None,
            }),
        ),
        answers_request(res, framework_asked(texts(args@)), mode_asked(texts(args@))),
{
    let framework = framework_word(args);
    match find_mode(args) {
        Some(i) => {
            let mode = args[i + 1].as_str().to_lowercase();
            select(framework.as_str(), Some(mode.as_str()))
        },
        None => select(framework.as_str(), None),
    }
}

/// A command line without arguments asks for all there is.
pub proof fn law_no_arguments_run_all(args: Seq<Seq<char>>)
    requires
        args.len() <= 1,
    ensures
        mode_arg_from(args, 0) is None,
        is_framework(lowercase(framework_arg(args))),
        selection_of(lowercase(framework_arg(args)), None) == (Selection {
            run_autoagents: true,
            run_rig: true,
            run_llm: true,
            run_tool: true,
        }),
{
    reveal_strlit("all");
    assert(lowercase("all"@) =~= "all"@);
}

/// One measurement.
#[derive(Clone, Copy, Debug, PartialEq, Eq, Structural)]
pub struct Step {
    pub framework: Framework,
    pub mode: BenchmarkMode,
    /// Whether the result is set against that of the same framework without
    /// tools.
    pub compare: bool,
}

/// The steps for one framework: first without tools, then with them.
pub open spec fn framework_steps(framework: Framework, run_llm: bool, run_tool: bool) -> Seq<Step> {
    let llm = if run_llm {
        seq![Step { framework, mode: BenchmarkMode::LlmOnly, compare: false }]
    } else {
        Seq::empty()
    };
    let tool = if run_tool {
        seq![Step { framework, mode: BenchmarkMode::Tool, compare: run_llm }]
    } else {
        Seq::empty()
    };
    llm + tool
}

/// The steps of a selection, framework by framework.
pub open spec fn steps_of(selection: Selection) -> Seq<Step> {
    let autoagents = if selection.run_autoagents {
        framework_steps(Framework::AutoAgents, selection.run_llm, selection.run_tool)
    } else {
        Seq::empty()
    };
    let rig = if selection.run_rig {
        framework_steps(Framework::Rig, selection.run_llm, selection.run_tool)
    } else {
        Seq::empty()
    };
    autoagents + rig
}

/// Adds the steps for one framework.
fn push_steps(steps: &mut Vec<Step>, framework: Framework, run_llm: bool, run_tool: bool)
    ensures
        final(steps)@ == old(steps)@ + framework_steps(framework, run_llm, run_tool),
{
    if run_llm {
        steps.push(Step { framework, mode: BenchmarkMode::LlmOnly, compare: false });
    }
    if run_tool {
        steps.push(Step { framework, mode: BenchmarkMode::Tool, compare: run_llm });
    }
    assert(steps@ =~= old(steps)@ + framework_steps(framework, run_llm, run_tool));
}

/// The steps of a selection.
pub fn plan(selection: Selection) -> (steps: Vec<Step>)
    ensures
        steps@ == steps_of(selection),
{
    let mut steps: Vec<Step> = Vec::new();
    if selection.run_autoagents {
        push_steps(&mut steps, Framework::AutoAgents, selection.run_llm, selection.run_tool);
    }
    if selection.run_rig {
        push_steps(&mut steps, Framework::Rig, selection.run_llm, selection.run_tool);
    }
    assert(steps@ =~= steps_of(selection));
    steps
}

/// The name of a framework in the results.
pub fn framework_name(framework: Framework) -> (name: &'static str)
    ensures
        name@ == (match framework {
            Framework::AutoAgents => "AutoAgents"@,
            Framework::Rig => "Rig"@,
        }),
{
    match framework {
        Framework::AutoAgents => "AutoAgents",
        Framework::Rig => "Rig",
    }
}

/// The file that holds the results of a mode.
pub fn result_file(mode: BenchmarkMode) -> (name: &'static str)
    ensures
        name@ == (match mode {
            BenchmarkMode::LlmOnly => "benchmark_results_llm.json"@,
            BenchmarkMode::Tool => "benchmark_results_tool.json"@,
        }),
{
    match mode {
        BenchmarkMode::LlmOnly => "benchmark_results_llm.json",
        BenchmarkMode::Tool => "benchmark_results_tool.json",
    }
}

/// A step that is set against another comes right behind it: the step of the
/// same framework without tools.
pub proof fn law_compared_step_follows_baseline(selection: Selection, i: int)
    requires
        0 <= i < steps_of(selection).len(),
        steps_of(selection)[i].compare,
    ensures
        i > 0,
        steps_of(selection)[i].mode is Tool,
        steps_of(selection)[i - 1] == (Step {
            framework: steps_of(selection)[i].framework,
            mode: BenchmarkMode::LlmOnly,
            compare: false,
        }),
{
}

/// A step with tools is set against one without wherever both modes run.
pub proof fn law_tool_step_compared(selection: Selection, i: int)
    requires
        0 <= i < steps_of(selection).len(),
        steps_of(selection)[i].mode is Tool,
    ensures
        steps_of(selection)[i].compare == selection.run_llm,
{
}

/// Just the frameworks and modes that are selected have a step, and each pair
/// has one.
pub proof fn law_steps_are_selected(selection: Selection, framework: Framework, mode: BenchmarkMode)
    ensures
        (exists|i: int|
            {
                &&& 0 <= i < steps_of(selection).len()
                &&& (#[trigger] steps_of(selection)[i]).framework == framework
                &&& steps_of(selection)[i].mode == mode
            }) <==> {
            &&& (match framework {
                Framework::AutoAgents => selection.run_autoagents,
                Framework::Rig => selection.run_rig,
            })
            &&& (match mode {
                BenchmarkMode::LlmOnly => selection.run_llm,
                BenchmarkMode::Tool => selection.run_tool,
            })
        },
        forall|i: int, j: int|
            #![trigger steps_of(selection)[i], steps_of(selection)[j]]
            0 <= i < j < steps_of(selection).len() ==> steps_of(selection)[i].framework
                != steps_of(selection)[j].framework || steps_of(selection)[i].mode
                != steps_of(selection)[j].mode,
{
    let steps = steps_of(selection);
    let wanted_framework = match framework {
        Framework::AutoAgents => selection.run_autoagents,
        Framework::Rig => selection.run_rig,
    };
    let wanted_mode = match mode {
        BenchmarkMode::LlmOnly => selection.run_llm,
        BenchmarkMode::Tool => selection.run_tool,
    };
    if wanted_framework && wanted_mode {
        let first = if framework is Rig && selection.run_autoagents {
            framework_steps(
                Framework::AutoAgents,
                selection.run_llm,
                selection.run_tool,
            ).len() as int
        } else {
            0
        };
        let i = if mode is Tool && selection.run_llm {
            first + 1
        } else {
            first
        };
        assert(steps[i].framework == framework && steps[i].mode == mode);
    }
}

/// A selection that is granted runs something.
pub proof fn law_granted_selection_runs(framework: Seq<char>, mode: Option<Seq<char>>)
    requires
        is_framework(framework),
        is_mode(mode),
    ensures
        steps_of(selection_of(framework, mode)).len() > 0,
{
    reveal_strlit("tool");
    reveal_strlit("llm");
    assert("tool"@[0] == 't' && "llm"@[0] == 'l');
}

/// A limit of so many seconds is just that, and only zero sets no limit.
pub proof fn law_time_limit_is_kept(secs: u64)
    ensures
        time_limit(secs) is None <==> secs == 0,
        time_limit(secs) matches Some(limit) ==> limit == secs,
{
}

/// A benchmark can run with one request and one worker, or more; without either
/// it cannot.
pub proof fn law_runnable_configurations(config: BenchmarkConfig)
    ensures
        is_runnable(config) <==> config.total_requests >= 1 && config.concurrency >= 1,
{
}

/// The first argument behind the program's name asks for a framework; without
/// one, all are asked for.
pub proof fn law_framework_is_first_argument(program: Seq<char>, rest: Seq<Seq<char>>)
    ensures
        rest.len() > 0 ==> framework_arg(seq![program] + rest) == rest[0],
        rest.len() == 0 ==> framework_arg(seq![program] + rest) == "all"@,
        framework_arg(Seq::empty()) == "all"@,
{
}

/// The mode is what follows the first `--mode`, wherever that stands; a
/// `--mode` at the end asks for nothing.
pub proof fn law_mode_follows_flag(before: Seq<Seq<char>>, after: Seq<Seq<char>>)
    requires
        !before.contains("--mode"@),
    ensures
        mode_arg_from(before, 0) is None,
        mode_arg_from(before.push("--mode"@), 0) is None,
        after.len() > 0 ==> mode_arg_from(before.push("--mode"@) + after, 0) == Some(after[0]),
{
    assert(forall|i: int| 0 <= i < before.len() ==> before.contains(#[trigger] before[i]));
    lemma_flag_from(before, before.len() as int, 0);
    lemma_flag_from(before.push("--mode"@), before.len() as int, 0);
    lemma_flag_from(before.push("--mode"@) + after, before.len() as int, 0);
}

/// Letter case aside, the first argument is the framework word, and what
/// follows `--mode` is the mode word: in ASCII, each capital letter stands for
/// the small one.
pub proof fn law_words_asked_for(
    program: Seq<char>,
    before: Seq<Seq<char>>,
    word: Seq<char>,
    after: Seq<Seq<char>>,
    small: Seq<char>,
)
    requires
        !seq![program].contains("--mode"@),
        !before.contains("--mode"@),
        is_all_ascii(word),
        small.len() == word.len(),
        forall|i: int|
            0 <= i < word.len() ==> #[trigger] small[i] as int == (if 'A' <= word[i] && word[i]
                <= 'Z' {
                word[i] as int + 32
            } else {
                word[i] as int
            }),
    ensures
        framework_asked(seq![program, word] + after) == small,
        mode_asked((seq![program] + before).push("--mode"@) + (seq![word] + after)) == Some(
            small,
        ),
        mode_asked(seq![program] + before) is None,
{
    assert(lowercase(word) =~= small);
    let args = seq![program] + before;
    assert(!args.contains("--mode"@)) by {
        if args.contains("--mode"@) {
            let i = choose|i: int| 0 <= i < args.len() && args[i] == "--mode"@;
            if i == 0 {
                assert(seq![program][0] == "--mode"@);
            } else {
                assert(before[i - 1] == "--mode"@);
            }
        }
    }
    law_mode_follows_flag(args, seq![word] + after);
    assert((seq![program, word] + after)[1] == word);
}

/// The search for the mode passes over other arguments.
proof fn lemma_flag_from(args: Seq<Seq<char>>, at: int, i: int)
    requires
        0 <= i <= at <= args.len(),
        forall|k: int| 0 <= k < at ==> #[trigger] args[k] != "--mode"@,
    ensures
        mode_arg_from(args, i) == mode_arg_from(args, at),
    decreases at - i,
{
    if i < at {
        lemma_flag_from(args, at, i + 1);
    }
}

/// The words for a mode and what each asks for: `tool` for tools alone, `llm`
/// for the language model alone, `both` and no word for both. No other word is
/// a mode.
pub proof fn law_modes_asked_for(framework: Seq<char>, word: Seq<char>)
    ensures
        is_mode(None) && is_mode(Some("tool"@)) && is_mode(Some("llm"@)) && is_mode(Some("both"@)),
        is_mode(Some(word)) ==> word == "tool"@ || word == "llm"@ || word == "both"@,
        selection_of(framework, Some("tool"@)).run_tool,
        !selection_of(framework, Some("tool"@)).run_llm,
        !selection_of(framework, Some("llm"@)).run_tool,
        selection_of(framework, Some("llm"@)).run_llm,
        selection_of(framework, Some("both"@)).run_tool,
        selection_of(framework, Some("both"@)).run_llm,
        selection_of(framework, None) == selection_of(framework, Some("both"@)),
{
    reveal_strlit("tool");
    reveal_strlit("llm");
    reveal_strlit("both");
    assert("tool"@[0] == 't' && "llm"@[0] == 'l' && "both"@[0] == 'b');
}

/// The words for a framework and what each asks for. No other word is one.
pub proof fn law_frameworks_asked_for(word: Seq<char>, mode: Option<Seq<char>>)
    ensures
        is_framework("all"@) && is_framework("autoagents"@) && is_framework("rig"@),
        is_framework(word) ==> word == "all"@ || word == "autoagents"@ || word == "rig"@,
        selection_of("all"@, mode).run_autoagents && selection_of("all"@, mode).run_rig,
        selection_of("autoagents"@, mode).run_autoagents,
        !selection_of("autoagents"@, mode).run_rig,
        !selection_of("rig"@, mode).run_autoagents,
        selection_of("rig"@, mode).run_rig,
        selection_of(word, mode).run_llm == selection_of("all"@, mode).run_llm,
        selection_of(word, mode).run_tool == selection_of("all"@, mode).run_tool,
{
    reveal_strlit("all");
    reveal_strlit("autoagents");
    reveal_strlit("rig");
    assert("all"@.len() == 3 && "autoagents"@.len() == 10 && "rig"@[0] == 'r');
    assert("all"@[0] == 'a');
}

/// A request has one answer. A wrong mode is told whatever the framework, a
/// wrong framework only beside a mode that is right, and each with the word
/// that was wrong; all else is granted.
pub proof fn law_requests_have_one_answer(
    res: Result<Selection, SetupError>,
    framework: Seq<char>,
    mode: Option<Seq<char>>,
)
    requires
        answers_request(res, framework, mode),
    ensures
        res is Ok <==> is_mode(mode) && is_framework(framework),
        res matches Ok(selection) ==> selection == selection_of(framework, mode),
        !is_mode(mode) ==> (res matches Err(SetupError::UnknownMode(word)) && Some(word@)
            == mode),
        is_mode(mode) && !is_framework(framework) ==> (res matches Err(
            SetupError::UnknownFramework(word),
        ) && word@ == framework),
{
}

/// Letter case does not matter in ASCII: a capital letter becomes the small
/// one, and all else stays.
pub proof fn law_lowercase_letters(text: Seq<char>, i: int)
    requires
        is_all_ascii(text),
        0 <= i < text.len(),
    ensures
        lowercase(text).len() == text.len(),
        'A' <= text[i] && text[i] <= 'Z' ==> lowercase(text)[i] as int == text[i] as int + 32,
        !('A' <= text[i] && text[i] <= 'Z') ==> lowercase(text)[i] == text[i],
{
}

/// The steps of AutoAgents go before those of Rig, and a step without tools
/// before the step with them.
pub proof fn law_steps_in_order(selection: Selection, i: int, j: int)
    requires
        0 <= i < j < steps_of(selection).len(),
    ensures
        steps_of(selection)[j].framework is AutoAgents ==> steps_of(
            selection,
        )[i].framework is AutoAgents,
        steps_of(selection)[i].framework == steps_of(selection)[j].framework ==> steps_of(
            selection,
        )[i].mode is LlmOnly && steps_of(selection)[j].mode is Tool,
{
}

/// An error names the word that was wrong, between quotes, and then the words
/// that are right.
pub proof fn law_error_names_the_word(word: String)
    ensures
        SetupError::UnknownMode(word).text() == "Unknown --mode "@ + ("'"@ + word@ + "'"@)
            + ". Valid options: tool, llm, both"@,
        SetupError::UnknownFramework(word).text() == "Unknown framework "@ + ("'"@ + word@
            + "'"@) + ". Valid options: autoagents, rig, all"@,
        SetupError::NothingToRun.text()
            == "Benchmark requires at least one request and concurrency > 0"@,
{
    reveal_strlit("'");
    reveal_strlit("Unknown --mode ");
    reveal_strlit("Unknown --mode '");
    reveal_strlit("'. Valid options: tool, llm, both");
    reveal_strlit(". Valid options: tool, llm, both");
    reveal_strlit("Unknown framework ");
    reveal_strlit("Unknown framework '");
    reveal_strlit("'. Valid options: autoagents, rig, all");
    reveal_strlit(". Valid options: autoagents, rig, all");
    assert("Unknown --mode '"@ =~= "Unknown --mode "@ + "'"@);
    assert("'. Valid options: tool, llm, both"@ =~= "'"@ + ". Valid options: tool, llm, both"@);
    assert("Unknown framework '"@ =~= "Unknown framework "@ + "'"@);
    assert("'. Valid options: autoagents, rig, all"@ =~= "'"@
        + ". Valid options: autoagents, rig, all"@);
    assert(SetupError::UnknownMode(word).text() =~= "Unknown --mode "@ + ("'"@ + word@ + "'"@)
        + ". Valid options: tool, llm, both"@);
    assert(SetupError::UnknownFramework(word).text() =~= "Unknown framework "@ + ("'"@ + word@
        + "'"@) + ". Valid options: autoagents, rig, all"@);
}

} // verus!
