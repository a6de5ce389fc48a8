//! The data-processing agent, its tool, and what it makes of a finished run.

use vstd::prelude::*;

use crate::answer::{
    document_number, number_in, number_view, object_value, parse_value, value_of, FoundNumber,
    NumberView,
};
use crate::json::{json_of, json_of_option, number_bits, read_json, reading_of, text_of, Json};
use crate::text::{blank, is_blank};

verus! {

/// The arguments of the trip-data tool: none.
#[derive(Debug)]
pub struct TripDataProcessingArgs {}

/// The tool that averages the trip durations of the dataset.
pub struct TripDataProcessorTool {}

impl Default for TripDataProcessorTool {
    fn default() -> (tool: Self)
        ensures
            tool == (TripDataProcessorTool {  }),
    {
        TripDataProcessorTool {  }
    }
}

/// The data-processing agent.
#[derive(Clone, Copy)]
pub struct SimpleAgent {}

impl Default for SimpleAgent {
    fn default() -> (agent: Self)
        ensures
            agent == (SimpleAgent {  }),
    {
        SimpleAgent {  }
    }
}

/// One tool call of a finished run.
pub struct ToolCallOutcome {
    pub success: bool,
    pub result: serde_json::Value,
}

/// What a run of the agent came to.
pub struct AgentRun {
    pub response: String,
    pub done: bool,
    pub tool_calls: Vec<ToolCallOutcome>,
}

/// Where the value of an output comes from.
pub enum OutputValue {
    /// The response read as a structured output.
    Structured,
    /// A number found in the response or in a tool result.
    Found(FoundNumber),
    /// Nothing was found: the value is zero.
    Zero,
}

/// What an `OutputValue` holds.
pub enum OutputView {
    Structured,
    Found(NumberView),
    Zero,
}

impl View for OutputValue {
    type V = OutputView;

    open spec fn view(&self) -> OutputView {
        match self {
            OutputValue::Structured => OutputView::Structured,
            OutputValue::Found(number) => OutputView::Found(number@),
            OutputValue::Zero => OutputView::Zero,
        }
    }
}

/// The agent's output: the average trip duration.
pub struct SimpleAgentOutput {
    pub value: OutputValue,
}

/// The number that the result of a tool call gives: a JSON number itself, the
/// number in a text, or that of an object's fields.
pub open spec fn result_number(result: Json) -> Option<NumberView> {
    match result {
        Json::Number(number) => Some(NumberView::Json(number.double())),
        Json::Text(text) => number_in(text, reading_of(text)),
        Json::Object(_) => document_number(Some(result)),
        _ => None,
    }
}

/// The number that a tool call gives; a call that failed gives none.
pub open spec fn call_number(call: ToolCallOutcome) -> Option<NumberView> {
    if call.success {
        result_number(json_of(call.result))
    } else {
        None
    }
}

/// The number of the last call that gives one.
pub open spec fn last_call_number(calls: Seq<ToolCallOutcome>) -> Option<NumberView>
    decreases calls.len(),
{
    if calls.len() == 0 {
        None
    } else if call_number(calls.last()) is Some {
        call_number(calls.last())
    } else {
        last_call_number(calls.drop_last())
    }
}

/// The results of the calls that succeeded, in order.
pub open spec fn successful_results(calls: Seq<ToolCallOutcome>) -> Seq<Json>
    decreases calls.len(),
{
    if calls.len() == 0 {
        Seq::empty()
    } else {
        let before = successful_results(calls.drop_last());
        if calls.last().success {
            before.push(json_of(calls.last().result))
        } else {
            before
        }
    }
}

/// The value of a finished run's response, of which `reading` is what it holds
/// as JSON, where it has one. A blank response has none.
pub open spec fn response_value(
    response: Seq<char>,
    structured: bool,
    reading: Option<Json>,
) -> Option<OutputView> {
    if is_blank(response) {
        None
    } else if structured {
        Some(OutputView::Structured)
    } else {
        match number_in(response, reading) {
            Some(number) => Some(OutputView::Found(number)),
            None => None,
        }
    }
}

/// The value of a run: that of the response, else the last tool call's, else
/// zero. A run that is not done has the value zero.
pub open spec fn run_value(run: AgentRun, structured: bool, reading: Option<Json>) -> OutputView {
    if !run.done {
        OutputView::Zero
    } else {
        match response_value(run.response@, structured, reading) {
            Some(value) => value,
            None => match last_call_number(run.tool_calls@) {
                Some(number) => OutputView::Found(number),
                None => OutputView::Zero,
            },
        }
    }
}

/// The number that the result of a tool call gives.
pub fn result_value(result: &serde_json::Value) -> (number: Option<FoundNumber>)
    ensures
        number_view(number) == result_number(json_of(*result)),
{
    match number_bits(result) {
        Some(bits) => {
            return Some(FoundNumber::Json(bits));
        },
        None => {},
    }
    match text_of(result) {
        Some(text) => parse_value(text),
        None => object_value(result),
    }
}

impl SimpleAgentOutput {
    /// The output of a run. `structured` says whether the response reads as a
    /// structured output.
    pub fn from_run(run: &AgentRun, structured: bool) -> (output: SimpleAgentOutput)
        ensures
            output.value@ == run_value(*run, structured, reading_of(run.response@)),
    {
        let document = match read_json(run.response.as_str()) {
            Ok(value) => Some(value),
            Err(_) => None,
        };
        SimpleAgentOutput::from_document(run, structured, document)
    }

    /// The output of a run, of whose response `document` is what it holds as
    /// JSON.
    pub fn from_document(
        run: &AgentRun,
        structured: bool,
        document: Option<serde_json::Value>,
    ) -> (output: SimpleAgentOutput)
        ensures
            output.value@ == run_value(*run, structured, json_of_option(document)),
    {
        let ghost reading = json_of_option(document);
        if run.done && !blank(run.response.as_str()) {
            if structured {
                return SimpleAgentOutput { value: OutputValue::Structured };
            }
            match value_of(run.response.as_str(), document) {
                Some(number) => {
                    return SimpleAgentOutput { value: OutputValue::Found(number) };
                },
                None => {},
            }
        }
        if run.done {
            let mut i: usize = run.tool_calls.len();
            assert(run.tool_calls@.take(i as int) =~= run.tool_calls@);
            while i > 0
                invariant
                    i <= run.tool_calls@.len(),
                    run.done,
                    response_value(run.response@, structured, reading) is None,
                    reading == json_of_option(document),
                    last_call_number(run.tool_calls@) == last_call_number(
                        run.tool_calls@.take(i as int),
                    ),
                decreases i,
            {
                i = i - 1;
                let call = &run.tool_calls[i];
                assert(run.tool_calls@.take(i + 1).last() == *call);
                assert(run.tool_calls@.take(i + 1).drop_last() =~= run.tool_calls@.take(i as int));
                if call.success {
                    match result_value(&call.result) {
                        Some(number) => {
                            return SimpleAgentOutput { value: OutputValue::Found(number) };
                        },
                        None => {},
                    }
                }
            }
        }
        SimpleAgentOutput { value: OutputValue::Zero }
    }
}

} // verus!
