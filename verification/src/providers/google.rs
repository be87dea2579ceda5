//! Requests to the Google Cloud Translate interface.

use vstd::prelude::*;
use vstd::string::*;
use crate::text::{all_whitespace, is_whitespace};

verus! {

/// One text to translate and the language to translate it into.
#[derive(Debug)]
pub struct TranslateRequest {
    pub q: String,
    pub target: String,
}

impl View for TranslateRequest {
    type V = (Seq<char>, Seq<char>);

    open spec fn view(&self) -> (Seq<char>, Seq<char>) {
        (self.q@, self.target@)
    }
}

/// The requests as mathematical values.
pub open spec fn request_views(requests: Seq<TranslateRequest>) -> Seq<(Seq<char>, Seq<char>)> {
    requests.map_values(|request: TranslateRequest| request@)
}

/// A request for each snippet that holds more than white space, in the
/// order of the snippets.
pub open spec fn requests_for(snippets: Seq<Seq<char>>, target: Seq<char>) -> Seq<
    (Seq<char>, Seq<char>),
>
    decreases snippets.len(),
{
    if snippets.len() == 0 {
        Seq::empty()
    } else {
        let before = requests_for(snippets.drop_last(), target);
        if all_whitespace(snippets.last()) {
            before
        } else {
            before.push((snippets.last(), target))
        }
    }
}

/// Makes a request for each snippet that holds more than white space, in the
/// order of the snippets.
pub fn translation_requests(snippets: &Vec<String>, target_language: &str) -> (requests: Vec<
    TranslateRequest,
>)
    ensures
        request_views(requests@) == requests_for(snippets.deep_view(), target_language@),
{
    let ghost all = snippets.deep_view();
    let mut requests: Vec<TranslateRequest> = Vec::new();
    let mut i: usize = 0;
    assert(all.take(0) =~= Seq::empty());
    assert(request_views(requests@) =~= Seq::empty());
    while i < snippets.len()
        invariant
            i <= snippets.len(),
            all == snippets.deep_view(),
            request_views(requests@) == requests_for(all.take(i as int), target_language@),
        decreases snippets.len() - i,
    {
        proof {
            assert(all.take(i + 1).drop_last() =~= all.take(i as int));
            assert(all.take(i + 1).last() == snippets[i as int]@);
        }
        if !is_whitespace(snippets[i].as_str()) {
            let ghost before = request_views(requests@);
            let request = TranslateRequest {
                q: snippets[i].clone(),
                target: target_language.to_owned(),
            };
            requests.push(request);
            assert(request_views(requests@) =~= before.push(
                (snippets[i as int]@, target_language@),
            ));
        }
        i += 1;
    }
    assert(all.take(i as int) =~= all);
    requests
}

/// The number of snippets that hold more than white space: the number of
/// requests that are made for them.
pub open spec fn wanted(snippets: Seq<Seq<char>>) -> nat
    decreases snippets.len(),
{
    if snippets.len() == 0 {
        0
    } else if all_whitespace(snippets.last()) {
        wanted(snippets.drop_last())
    } else {
        wanted(snippets.drop_last()) + 1
    }
}

/// The answer for a batch of snippets: at the place of a snippet that holds
/// nothing but white space the snippet itself, at the place of any other
/// the translation that came back for its request. There is none where
/// the translations are not as many as the requests were.
pub open spec fn put_back(snippets: Seq<Seq<char>>, translations: Seq<Seq<char>>) -> Option<
    Seq<Seq<char>>,
> {
    if translations.len() != wanted(snippets) {
        None
    } else {
        Some(
            Seq::new(
                snippets.len(),
                |i: int|
                    if all_whitespace(snippets[i]) {
                        snippets[i]
                    } else {
                        translations[wanted(snippets.take(i)) as int]
                    },
            ),
        )
    }
}

/// As many requests are made as snippets hold more than white space.
pub proof fn lemma_requests_are_wanted(snippets: Seq<Seq<char>>, target: Seq<char>)
    ensures
        requests_for(snippets, target).len() == wanted(snippets),
    decreases snippets.len(),
{
    if snippets.len() > 0 {
        lemma_requests_are_wanted(snippets.drop_last(), target);
    }
}

/// Among the first snippets no more are wanted than among all.
proof fn lemma_wanted_grows(snippets: Seq<Seq<char>>, k: int)
    requires
        0 <= k <= snippets.len(),
    ensures
        wanted(snippets.take(k)) <= wanted(snippets),
    decreases snippets.len() - k,
{
    if k == snippets.len() {
        assert(snippets.take(k) =~= snippets);
    } else {
        lemma_wanted_grows(snippets, k + 1);
        assert(snippets.take(k + 1).drop_last() =~= snippets.take(k));
    }
}

/// Puts the translations that came back at the places of their snippets,
/// and leaves the snippets that hold nothing but white space, for which no
/// request was made, as they are. The answer has the length and the order
/// of the batch. There is none where the translations are not as many as
/// the requests were.
pub fn merge_translations(snippets: &Vec<String>, translations: &Vec<String>) -> (answer: Option<
    Vec<String>,
>)
    ensures
        match answer {
            Some(texts) => put_back(snippets.deep_view(), translations.deep_view()) == Some(
                texts.deep_view(),
            ) && texts.len() == snippets.len(),
            None => put_back(snippets.deep_view(), translations.deep_view()) is None,
        },
{
    let ghost all = snippets.deep_view();
    let ghost given = translations.deep_view();
    let mut count: usize = 0;
    let mut i: usize = 0;
    assert(all.take(0) =~= Seq::empty());
    while i < snippets.len()
        invariant
            i <= snippets.len(),
            all == snippets.deep_view(),
            count <= i,
            count == wanted(all.take(i as int)),
        decreases snippets.len() - i,
    {
        proof {
            assert(all.take(i + 1).drop_last() =~= all.take(i as int));
            assert(all.take(i + 1).last() == snippets[i as int]@);
        }
        if !is_whitespace(snippets[i].as_str()) {
            count += 1;
        }
        i += 1;
    }
    assert(all.take(i as int) =~= all);
    if count != translations.len() {
        return None;
    }
    let ghost expected = put_back(all, given)->Some_0;
    let mut texts: Vec<String> = Vec::new();
    let mut next: usize = 0;
    let mut j: usize = 0;
    while j < snippets.len()
        invariant
            j <= snippets.len(),
            all == snippets.deep_view(),
            given == translations.deep_view(),
            translations.len() == wanted(all),
            put_back(all, given) == Some(expected),
            next == wanted(all.take(j as int)),
            texts.len() == j,
            forall|q: int| 0 <= q < j ==> (#[trigger] texts[q])@ == expected[q],
        decreases snippets.len() - j,
    {
        proof {
            assert(all.take(j + 1).drop_last() =~= all.take(j as int));
            assert(all.take(j + 1).last() == snippets[j as int]@);
            lemma_wanted_grows(all, j + 1);
            assert(all[j as int] == snippets[j as int]@);
        }
        if is_whitespace(snippets[j].as_str()) {
            texts.push(snippets[j].clone());
        } else {
            assert(given[next as int] == translations[next as int]@);
            texts.push(translations[next].clone());
            next += 1;
        }
        j += 1;
    }
    assert(texts.deep_view() =~= expected);
    Some(texts)
}

/// The address that the texts are sent to, with the key of the caller.
pub fn translate_url(api_key: &str) -> (url: String)
    ensures
        url@ == "https://translation.googleapis.com/language/translate/v2?key="@ + api_key@,
{
    let mut url = "https://translation.googleapis.com/language/translate/v2?key=".to_owned();
    url.append(api_key);
    url
}

/// The address that a whole document is sent to, for the project of the
/// caller.
pub fn translate_document_url(project_id: &str) -> (url: String)
    ensures
        url@ == "https://translation.googleapis.com/v3/projects/"@ + project_id@
            + "/locations/global:translateDocument"@,
{
    let mut url = "https://translation.googleapis.com/v3/projects/".to_owned();
    url.append(project_id);
    url.append("/locations/global:translateDocument");
    url
}


/// The error of the crate `base64` for a text that is no base64.
#[verifier::external_type_specification]
#[verifier::external_body]
pub struct ExDecodeError(base64::DecodeError);

/// The bytes written in base64 with the standard alphabet and padding.
pub uninterp spec fn base64_text(bytes: Seq<u8>) -> Seq<char>;

/// The bytes that a text in base64 stands for, or `None` where the text is
/// no base64.
pub uninterp spec fn base64_bytes(text: Seq<char>) -> Option<Seq<u8>>;

/// Calls `base64::Engine::encode` of the standard engine, which fails only
/// where the length of its answer does not fit the machine. The contract
/// gives the answer the name `base64_text` and claims nothing else of it.
#[verifier::external_body]
fn encode_base64(bytes: &Vec<u8>) -> (text: String)
    requires
        bytes.len() / 3 < usize::MAX / 4,
    ensures
        text@ == base64_text(bytes@),
{
    base64::Engine::encode(&base64::prelude::BASE64_STANDARD, bytes)
}

/// Calls `base64::Engine::decode` of the standard engine. The contract
/// gives the outcome the name `base64_bytes` and claims nothing else of it.
#[verifier::external_body]
fn decode_base64(text: &str) -> (bytes: Result<Vec<u8>, base64::DecodeError>)
    ensures
        match bytes {
            Ok(bytes) => base64_bytes(text@) == Some(bytes@),
            Err(_) => base64_bytes(text@) is None,
        },
{
    base64::Engine::decode(&base64::prelude::BASE64_STANDARD, text)
}

/// What is sent to have a whole document translated.
#[derive(Debug)]
pub struct DocumentRequest {
    /// The document in base64.
    pub content: String,
    /// The type of the document.
    pub mime_type: String,
    /// The language to translate into.
    pub target_language_code: String,
}

/// A document can be sent where its length in base64 fits the machine.
pub open spec fn can_be_sent(document: Seq<u8>) -> bool {
    document.len() / 3 < usize::MAX / 4
}

/// Makes the request that has a page-based document translated as a whole.
/// There is none for a document that is too long to be written in base64.
pub fn document_request(document: &Vec<u8>, target_language: &str) -> (request: Option<
    DocumentRequest,
>)
    ensures
        request is Some <==> can_be_sent(document@),
        request matches Some(made) ==> {
            &&& made.content@ == base64_text(document@)
            &&& made.mime_type@ == "application/pdf"@
            &&& made.target_language_code@ == target_language@
        },
{
    if document.len() / 3 >= usize::MAX / 4 {
        return None;
    }
    Some(
        DocumentRequest {
            content: encode_base64(document),
            mime_type: "application/pdf".to_owned(),
            target_language_code: target_language.to_owned(),
        },
    )
}

/// Why no translated document came back.
#[derive(Clone, Copy, Debug, PartialEq, Eq, Structural)]
pub enum ResponseError {
    /// The answer holds no document.
    NoContent,
    /// What the answer holds is no base64.
    Encoding,
}

/// What `translated_document` answers.
pub open spec fn document_of(pdf_data: Option<Seq<char>>) -> Result<Seq<u8>, ResponseError> {
    match pdf_data {
        None => Err(ResponseError::NoContent),
        Some(text) => match base64_bytes(text) {
            Some(bytes) => Ok(bytes),
            None => Err(ResponseError::Encoding),
        },
    }
}

/// Takes the translated document out of what the answer holds for it.
pub fn translated_document(pdf_data: Option<&str>) -> (document: Result<Vec<u8>, ResponseError>)
    ensures
        match document {
            Ok(bytes) => document_of(
                match pdf_data {
                    Some(text) => Some(text@),
                    None => None,
                },
            ) == Ok::<Seq<u8>, ResponseError>(bytes@),
            Err(fault) => document_of(
                match pdf_data {
                    Some(text) => Some(text@),
                    None => None,
                },
            ) == Err::<Seq<u8>, ResponseError>(fault),
        },
{
    match pdf_data {
        None => Err(ResponseError::NoContent),
        Some(text) => match decode_base64(text) {
            Ok(bytes) => Ok(bytes),
            Err(_) => Err(ResponseError::Encoding),
        },
    }
}

} // verus!
