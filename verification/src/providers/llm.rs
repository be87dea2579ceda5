//! Requests to a language model that completes a prompt.

use vstd::prelude::*;
use vstd::string::*;

verus! {

/// The model that is asked.
pub open spec fn model_name() -> Seq<char> {
    "llama-3.2-3B"@
}

/// The most tokens that an answer may have.
pub const MAX_TOKENS: i32 = 100;

/// What is sent to the model.
#[derive(Debug)]
pub struct Request {
    pub model: String,
    pub prompt: String,
    pub max_tokens: i32,
}

/// The prompt that asks for the translation of a snippet.
pub open spec fn prompt_for(snippet: Seq<char>, to: Seq<char>) -> Seq<char> {
    "Please translate the following into "@ + to + ":\n"@ + snippet
}

/// The prompt that asks a model on this machine for the translation of a
/// snippet.
pub open spec fn local_prompt_for(snippet: Seq<char>, to: Seq<char>) -> Seq<char> {
    "Please translate the following text into "@ + to + ":\n "@ + snippet
}

/// The request that asks for the translation of a snippet.
pub fn completion_request(snippet: &str, to: &str) -> (request: Request)
    ensures
        request.model@ == model_name(),
        request.prompt@ == prompt_for(snippet@, to@),
        request.max_tokens == MAX_TOKENS,
{
    let mut prompt = "Please translate the following into ".to_owned();
    prompt.append(to);
    prompt.append(":\n");
    prompt.append(snippet);
    Request { model: "llama-3.2-3B".to_owned(), prompt, max_tokens: MAX_TOKENS }
}

/// The prompt that asks a model on this machine for the translation of a
/// snippet.
pub fn local_prompt(snippet: &str, to: &str) -> (prompt: String)
    ensures
        prompt@ == local_prompt_for(snippet@, to@),
{
    let mut prompt = "Please translate the following text into ".to_owned();
    prompt.append(to);
    prompt.append(":\n ");
    prompt.append(snippet);
    prompt
}

/// The address that a request for a model is sent to.
pub fn completion_url(endpoint: &str, model: &str) -> (url: String)
    ensures
        url@ == endpoint@ + "/v1/"@ + model@ + "/completions"@,
{
    let mut url = endpoint.to_owned();
    url.append("/v1/");
    url.append(model);
    url.append("/completions");
    url
}

/// The answer of the model: the text of the last of its choices. A model
/// that gave no choice gave no answer.
pub fn last_choice(choices: &Vec<String>) -> (text: Option<String>)
    ensures
        choices.len() == 0 <==> text is None,
        text matches Some(answer) ==> answer@ == choices@.last()@,
{
    if choices.len() == 0 {
        None
    } else {
        Some(choices[choices.len() - 1].clone())
    }
}

} // verus!
