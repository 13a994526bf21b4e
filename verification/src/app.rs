//! The state of the interface and how keys and responses change it.

use vstd::prelude::*;

use crate::auth::{mask_secret, masked};
use crate::curl::{curl_command, generate_curl};
use crate::json::{json_reading, serde_compact};
use crate::order::{
    insert_sorted, lemma_less_from_asymmetric, lemma_less_from_transitive, lemma_text_less_total,
    less, lemma_sorted_names, same_chars, sorted_names, sorted_unique, text_less,
};
use crate::request::{Method, RequestInput};
use crate::response::ResponseState;
use crate::text::{
    char_rows, chars_of, decimal, decimal_string, extend_chars, extend_str, join, join_strings,
    lines, split_lines, string_from, string_rows, strings_from, trim, trimmed,
};
use crate::variables::{
    applied_rules, apply_extraction_rules, invalid_json_message, lemma_masking_keeps_unresolved,
    lemma_masking_without_secrets, lemma_unresolved_are_missing, parse_extraction_rules,
    rules_of_lines, substitute, substitution, RuntimeVariable, RuntimeVariableView, VariableStore,
};

verus! {

#[derive(Clone, Copy, Debug, PartialEq, Eq, Structural)]
pub enum Mode {
    Normal,
    Insert,
}

#[derive(Clone, Copy, Debug, PartialEq, Eq, Structural)]
pub enum ActivePane {
    Url,
    Headers,
    Body,
    Auth,
    Method,
    Extract,
}

/// The pane that `Tab` moves to.
pub open spec fn pane_after(p: ActivePane) -> ActivePane {
    match p {
        ActivePane::Method => ActivePane::Url,
        ActivePane::Url => ActivePane::Headers,
        ActivePane::Headers => ActivePane::Auth,
        ActivePane::Auth => ActivePane::Body,
        ActivePane::Body => ActivePane::Extract,
        ActivePane::Extract => ActivePane::Method,
    }
}

/// The pane that `Shift+Tab` moves to.
pub open spec fn pane_before(p: ActivePane) -> ActivePane {
    match p {
        ActivePane::Method => ActivePane::Extract,
        ActivePane::Url => ActivePane::Method,
        ActivePane::Headers => ActivePane::Url,
        ActivePane::Auth => ActivePane::Headers,
        ActivePane::Body => ActivePane::Auth,
        ActivePane::Extract => ActivePane::Body,
    }
}

/// The method that `m` moves to.
pub open spec fn method_after(m: Method) -> Method {
    match m {
        Method::Get => Method::Post,
        Method::Post => Method::Put,
        Method::Put => Method::Patch,
        Method::Patch => Method::Delete,
        Method::Delete => Method::Get,
    }
}

/// Moving back through the panes undoes moving forward, and the other way round.
pub proof fn lemma_panes_round_trip(p: ActivePane)
    ensures
        pane_before(pane_after(p)) == p,
        pane_after(pane_before(p)) == p,
{
}

/// Cycling through the methods comes back to the start after five steps,
/// and not before.
pub proof fn lemma_method_cycle(m: Method)
    ensures
        method_after(method_after(method_after(method_after(method_after(m))))) == m,
        method_after(m) != m,
        method_after(method_after(m)) != m,
        method_after(method_after(method_after(m))) != m,
        method_after(method_after(method_after(method_after(m)))) != m,
{
}

/// Which key was pressed.
#[derive(Clone, Copy, Debug, PartialEq, Eq, Structural)]
pub enum KeyCode {
    Char(char),
    Enter,
    Esc,
    Tab,
    BackTab,
    Up,
    Down,
    Other,
}

/// A key press, with whether Control was held.
#[derive(Clone, Copy, Debug, PartialEq, Eq, Structural)]
pub struct KeyEvent {
    pub code: KeyCode,
    pub control: bool,
}

/// What the surroundings of the state have to do after a key.
#[derive(Debug)]
pub enum Action {
    Nothing,
    /// Send this request, then hand the response back.
    Send(RequestInput),
    /// Put this text on the clipboard.
    Copy(String),
    /// Let the input of this pane edit itself with the key.
    Edit(ActivePane),
    /// Reset the request inputs to empty ones.
    ClearInputs,
}

pub struct App {
    pub mode: Mode,
    pub active_pane: ActivePane,
    pub should_quit: bool,
    pub method: Method,
    pub url_input: Vec<String>,
    pub headers_input: Vec<String>,
    pub body_input: Vec<String>,
    pub auth_input: Vec<String>,
    pub extraction_input: Vec<String>,
    pub response: Option<ResponseState>,
    pub is_loading: bool,
    pub response_scroll: u16,
    pub variables: VariableStore,
    pub status_message: String,
}

/// The lines of an empty input.
pub open spec fn is_empty_input(v: Seq<String>) -> bool {
    v.len() == 1 && v[0]@.len() == 0
}

fn empty_input() -> (r: Vec<String>)
    ensures
        is_empty_input(r@),
{
    let mut v: Vec<String> = Vec::new();
    v.push(String::new());
    v
}

/// The four request texts of the state: the URL lines joined and trimmed,
/// and the header, body and auth lines joined with newlines.
pub open spec fn url_text(app: App) -> Seq<char> {
    trim(join(string_rows(app.url_input@), Seq::empty()))
}

pub open spec fn headers_text(app: App) -> Seq<char> {
    join(string_rows(app.headers_input@), "\n"@)
}

pub open spec fn body_text(app: App) -> Seq<char> {
    join(string_rows(app.body_input@), "\n"@)
}

pub open spec fn auth_text(app: App) -> Seq<char> {
    join(string_rows(app.auth_input@), "\n"@)
}

/// The placeholder names that no runtime variable resolves, over the four
/// request texts.
pub open spec fn unresolved_names(app: App, mask_secrets: bool) -> Set<Seq<char>> {
    substitution(url_text(app), app.variables@, mask_secrets).1.to_set().union(
        substitution(headers_text(app), app.variables@, mask_secrets).1.to_set(),
    ).union(substitution(body_text(app), app.variables@, mask_secrets).1.to_set()).union(
        substitution(auth_text(app), app.variables@, mask_secrets).1.to_set(),
    )
}

/// The request that the state describes, once its placeholders are
/// substituted.
pub open spec fn substituted_input(app: App, mask_secrets: bool, r: RequestInput) -> bool {
    &&& r.method == app.method
    &&& r.url@ == substitution(url_text(app), app.variables@, mask_secrets).0
    &&& r.headers@ == substitution(headers_text(app), app.variables@, mask_secrets).0
    &&& r.body@ == substitution(body_text(app), app.variables@, mask_secrets).0
    &&& r.auth@ == substitution(auth_text(app), app.variables@, mask_secrets).0
}

fn merge_names(acc: &mut Vec<Vec<char>>, names: &Vec<String>)
    requires
        sorted_unique(char_rows(old(acc)@)),
    ensures
        sorted_unique(char_rows(final(acc)@)),
        char_rows(final(acc)@).to_set() == char_rows(old(acc)@).to_set().union(
            string_rows(names@).to_set(),
        ),
{
    let ghost start = char_rows(acc@).to_set();
    let ghost rows = string_rows(names@);
    for i in 0..names.len()
        invariant
            rows == string_rows(names@),
            sorted_unique(char_rows(acc@)),
            char_rows(acc@).to_set() == start.union(rows.take(i as int).to_set()),
    {
        let ghost before = char_rows(acc@).to_set();
        insert_sorted(acc, chars_of(names[i].as_str()));
        proof {
            rows.take(i as int).lemma_push_to_set_commute(rows[i as int]);
            assert(rows.take(i + 1) =~= rows.take(i as int).push(rows[i as int]));
            assert(char_rows(acc@).to_set() =~= start.union(rows.take(i + 1).to_set()));
        }
    }
    assert(rows.take(names.len() as int) =~= rows);
}

/// The rules text: the extraction lines joined with newlines.
pub open spec fn extraction_text(app: App) -> Seq<char> {
    join(string_rows(app.extraction_input@), "\n"@)
}

pub open spec fn extracted_message(n: nat) -> Seq<char> {
    if n == 0 {
        "No extraction rules matched the response."@
    } else {
        "Extracted "@ + decimal(n) + " variable(s)."@
    }
}

/// The variables and status message after running the extraction rules on
/// the latest response: nothing happens for an error response (status 0) or
/// when there are no rules; otherwise the rules' results are stored and
/// counted, or the reason the body is not JSON is shown.
pub open spec fn after_extraction(
    vars: Map<Seq<char>, RuntimeVariableView>,
    status: Seq<char>,
    response: Option<ResponseState>,
    rules_text: Seq<char>,
) -> (Map<Seq<char>, RuntimeVariableView>, Seq<char>) {
    match response {
        None => (vars, "No response available for extraction."@),
        Some(res) => {
            let rules = rules_of_lines(lines(rules_text));
            if res.status == 0 || rules.len() == 0 {
                (vars, status)
            } else {
                match json_reading(res.body@) {
                    Err(e) => (vars, invalid_json_message(e)),
                    Ok(d) => {
                        let applied = applied_rules(vars, rules, d);
                        (applied.0, extracted_message(applied.1))
                    },
                }
            }
        },
    }
}

/// Where the response is one that the rules run on and serde_json reads its
/// body, the rules see the value read: the body is never reported as not
/// JSON.
pub open spec fn extraction_reads_json(res: ResponseState, rules_text: Seq<char>) -> bool {
    res.status != 0 && rules_of_lines(lines(rules_text)).len() > 0 && serde_compact(res.body@) is Ok
        ==> json_reading(res.body@) is Ok
}

/// Everything but the variables and the status message is the same.
pub open spec fn same_but_status(a: App, b: App) -> bool {
    &&& a.mode == b.mode
    &&& a.active_pane == b.active_pane
    &&& a.should_quit == b.should_quit
    &&& a.method == b.method
    &&& a.url_input == b.url_input
    &&& a.headers_input == b.headers_input
    &&& a.body_input == b.body_input
    &&& a.auth_input == b.auth_input
    &&& a.extraction_input == b.extraction_input
    &&& a.response == b.response
    &&& a.is_loading == b.is_loading
    &&& a.response_scroll == b.response_scroll
}

/// What running the extraction rules does to the state.
pub open spec fn extraction_done(before: App, after: App) -> bool {
    &&& same_but_status(before, after)
    &&& (after.variables@, after.status_message@) == after_extraction(
        before.variables@,
        before.status_message@,
        before.response,
        extraction_text(before),
    )
}

/// What handling a response does to the state: it is stored, loading ends,
/// the extraction rules run on it, the scroll goes back to the top, and a
/// status still saying the request is on its way says it has arrived.
pub open spec fn response_handled(before: App, res: ResponseState, after: App) -> bool {
    let ex = after_extraction(
        before.variables@,
        before.status_message@,
        Some(res),
        extraction_text(before),
    );
    &&& after.mode == before.mode
    &&& after.active_pane == before.active_pane
    &&& after.should_quit == before.should_quit
    &&& after.method == before.method
    &&& after.url_input == before.url_input
    &&& after.headers_input == before.headers_input
    &&& after.body_input == before.body_input
    &&& after.auth_input == before.auth_input
    &&& after.extraction_input == before.extraction_input
    &&& after.response == Some(res)
    &&& !after.is_loading
    &&& after.response_scroll == 0
    &&& after.variables@ == ex.0
    &&& after.status_message@ == if ex.1 == "Sending request..."@ {
        "Response received."@
    } else {
        ex.1
    }
}

impl App {
    pub fn new() -> (r: Self)
        ensures
            r.mode == Mode::Normal,
            r.active_pane == ActivePane::Url,
            !r.should_quit,
            r.method == Method::Get,
            is_empty_input(r.url_input@),
            is_empty_input(r.headers_input@),
            is_empty_input(r.body_input@),
            is_empty_input(r.auth_input@),
            is_empty_input(r.extraction_input@),
            r.response is None,
            !r.is_loading,
            r.response_scroll == 0,
            r.variables@ == Map::<Seq<char>, crate::variables::RuntimeVariableView>::empty(),
            r.status_message@ == "Ready."@,
    {
        App {
            mode: Mode::Normal,
            active_pane: ActivePane::Url,
            should_quit: false,
            method: Method::Get,
            url_input: empty_input(),
            headers_input: empty_input(),
            body_input: empty_input(),
            auth_input: empty_input(),
            extraction_input: empty_input(),
            response: None,
            is_loading: false,
            response_scroll: 0,
            variables: VariableStore::new(),
            status_message: "Ready.".to_owned(),
        }
    }

    /// The request the inputs describe with their placeholders substituted,
    /// or the sorted names that no variable resolves.
    pub fn substituted_request(&self, mask_secrets: bool) -> (r: Result<RequestInput, Vec<String>>)
        ensures
            r is Ok <==> unresolved_names(*self, mask_secrets).is_empty(),
            r matches Ok(input) ==> substituted_input(*self, mask_secrets, input),
            r matches Err(names) ==> string_rows(names@) == sorted_names(
                unresolved_names(*self, mask_secrets),
            ),
    {
        let url_joined = join_strings(&self.url_input, "");
        assert("" @ == Seq::<char>::empty()) by {
            reveal_strlit("");
        }
        let url = string_from(&trimmed(&url_joined));
        let f0 = substitute(url.as_str(), &self.variables, mask_secrets);
        let f1 = substitute(
            string_from(&join_strings(&self.headers_input, "\n")).as_str(),
            &self.variables,
            mask_secrets,
        );
        let f2 = substitute(
            string_from(&join_strings(&self.body_input, "\n")).as_str(),
            &self.variables,
            mask_secrets,
        );
        let f3 = substitute(
            string_from(&join_strings(&self.auth_input, "\n")).as_str(),
            &self.variables,
            mask_secrets,
        );
        let mut names: Vec<Vec<char>> = Vec::new();
        assert(char_rows(names@).to_set() =~= Set::<Seq<char>>::empty());
        merge_names(&mut names, &f0.unresolved);
        merge_names(&mut names, &f1.unresolved);
        merge_names(&mut names, &f2.unresolved);
        merge_names(&mut names, &f3.unresolved);
        assert(char_rows(names@).to_set() =~= unresolved_names(*self, mask_secrets));
        if names.len() > 0 {
            assert(char_rows(names@).to_set().contains(char_rows(names@)[0]));
            let out = strings_from(&names);
            proof {
                lemma_sorted_names(char_rows(names@));
            }
            return Err(out);
        }
        assert(char_rows(names@).to_set() =~= Set::<Seq<char>>::empty());
        Ok(RequestInput::new(self.method, f0.value, f1.value, f2.value, f3.value))
    }
}

impl App {
    pub fn extraction_rules_text(&self) -> (r: String)
        ensures
            r@ == extraction_text(*self),
    {
        string_from(&join_strings(&self.extraction_input, "\n"))
    }

    pub fn run_extraction_on_latest_response(&mut self)
        ensures
            extraction_done(*old(self), *final(self)),
            old(self).response matches Some(res) ==> extraction_reads_json(
                res,
                extraction_text(*old(self)),
            ),
    {
        let ghost before = *self;
        let ghost text = extraction_text(*self);
        let body = match &self.response {
            None => {
                self.status_message = "No response available for extraction.".to_owned();
                return;
            },
            Some(response) => {
                if response.status == 0 {
                    return;
                }
                response.body.clone()
            },
        };
        let rules = parse_extraction_rules(self.extraction_rules_text().as_str());
        if rules.len() == 0 {
            return;
        }
        match apply_extraction_rules(body.as_str(), rules.as_slice(), &mut self.variables) {
            Ok(count) => {
                if count == 0 {
                    self.status_message = "No extraction rules matched the response.".to_owned();
                } else {
                    let mut m = chars_of("Extracted ");
                    extend_str(&mut m, decimal_string(count).as_str());
                    extend_str(&mut m, " variable(s).");
                    self.status_message = string_from(&m);
                }
            },
            Err(err) => {
                self.status_message = err;
            },
        }
    }

    pub fn handle_response(&mut self, res: ResponseState)
        ensures
            response_handled(*old(self), res, *final(self)),
            extraction_reads_json(res, extraction_text(*old(self))),
    {
        let ghost before = *self;
        let ghost r = res;
        self.is_loading = false;
        self.response = Some(res);
        self.run_extraction_on_latest_response();
        let sending = chars_of("Sending request...");
        if same_chars(&chars_of(self.status_message.as_str()), &sending) {
            self.status_message = "Response received.".to_owned();
        }
        self.response_scroll = 0;
    }
}

/// The inputs, method and variables are the same.
pub open spec fn same_request(a: App, b: App) -> bool {
    &&& a.method == b.method
    &&& a.url_input == b.url_input
    &&& a.headers_input == b.headers_input
    &&& a.body_input == b.body_input
    &&& a.auth_input == b.auth_input
    &&& a.extraction_input == b.extraction_input
    &&& a.variables == b.variables
}

/// Mode, pane, quit flag, loading flag and scroll are the same.
pub open spec fn same_view(a: App, b: App) -> bool {
    &&& a.mode == b.mode
    &&& a.active_pane == b.active_pane
    &&& a.should_quit == b.should_quit
    &&& a.is_loading == b.is_loading
    &&& a.response_scroll == b.response_scroll
}

/// The body shown when a request is blocked by unresolved placeholders.
pub open spec fn blocked_body(names: Seq<Seq<char>>) -> Seq<char> {
    "Missing variables: "@ + join(names, ", "@)
}

/// What asking to send does: nothing while a request is on its way; a
/// blocked-request response naming the unresolved placeholders when there
/// are any; otherwise the state starts loading and the substituted request
/// is handed out to be sent.
pub open spec fn send_effect(before: App, after: App, action: Action) -> bool {
    if before.is_loading {
        after == before && action is Nothing
    } else if !unresolved_names(before, false).is_empty() {
        &&& same_request(before, after)
        &&& same_view(before, after)
        &&& after.response matches Some(res) && res.status == 0 && res.status_text@
            == "Error: unresolved variables"@ && res.duration == 0 && res.headers@.len() == 0
            && res.body@ == blocked_body(sorted_names(unresolved_names(before, false)))
        &&& after.status_message@ == "Request blocked: unresolved {{variables}}."@
        &&& action is Nothing
    } else {
        &&& same_request(before, after)
        &&& after.mode == before.mode
        &&& after.active_pane == before.active_pane
        &&& after.should_quit == before.should_quit
        &&& after.response_scroll == before.response_scroll
        &&& after.response == before.response
        &&& after.is_loading
        &&& after.status_message@ == "Sending request..."@
        &&& action matches Action::Send(input) && substituted_input(before, false, input)
    }
}

/// The curl command of the substituted request, with secrets masked or not.
pub open spec fn curl_of_app(app: App, mask_secrets: bool) -> Seq<char> {
    curl_command(
        app.method,
        substitution(url_text(app), app.variables@, mask_secrets).0,
        substitution(headers_text(app), app.variables@, mask_secrets).0,
        substitution(body_text(app), app.variables@, mask_secrets).0,
        substitution(auth_text(app), app.variables@, mask_secrets).0,
    )
}

/// The curl preview shown on screen: the command with secrets masked, or
/// the unresolved placeholder names.
pub open spec fn curl_preview(app: App) -> Seq<char> {
    if unresolved_names(app, true).is_empty() {
        curl_of_app(app, true)
    } else {
        "Unresolved variables: "@ + join(sorted_names(unresolved_names(app, true)), ", "@)
    }
}

/// What clearing the inputs does: the request inputs are emptied and the
/// response dropped; the extraction rules and runtime variables stay.
pub open spec fn cleared(before: App, after: App) -> bool {
    &&& same_view(before, after)
    &&& after.method == before.method
    &&& is_empty_input(after.url_input@)
    &&& is_empty_input(after.headers_input@)
    &&& is_empty_input(after.body_input@)
    &&& is_empty_input(after.auth_input@)
    &&& after.extraction_input == before.extraction_input
    &&& after.variables == before.variables
    &&& after.response is None
    &&& after.status_message@ == "Cleared request inputs. Runtime variables kept."@
}

/// The furthest the response can be scrolled: one less than its number of
/// lines (counted as a `u16`), and never below zero.
pub open spec fn max_scroll(res: ResponseState) -> int {
    let count = lines(res.body@).len() % 65536;
    if count == 0 {
        0
    } else {
        count - 1
    }
}

fn joined_names(names: &Vec<String>) -> (r: String)
    ensures
        r@ == join(string_rows(names@), ", "@),
{
    string_from(&join_strings(names, ", "))
}

impl App {
    pub fn next_pane(&mut self)
        ensures
            *final(self) == (App { active_pane: pane_after(old(self).active_pane), ..*old(self) }),
    {
        self.active_pane = match self.active_pane {
            ActivePane::Method => ActivePane::Url,
            ActivePane::Url => ActivePane::Headers,
            ActivePane::Headers => ActivePane::Auth,
            ActivePane::Auth => ActivePane::Body,
            ActivePane::Body => ActivePane::Extract,
            ActivePane::Extract => ActivePane::Method,
        };
    }

    pub fn prev_pane(&mut self)
        ensures
            *final(self) == (App { active_pane: pane_before(old(self).active_pane), ..*old(self) }),
    {
        self.active_pane = match self.active_pane {
            ActivePane::Method => ActivePane::Extract,
            ActivePane::Url => ActivePane::Method,
            ActivePane::Headers => ActivePane::Url,
            ActivePane::Auth => ActivePane::Headers,
            ActivePane::Body => ActivePane::Auth,
            ActivePane::Extract => ActivePane::Body,
        };
    }

    pub fn cycle_method(&mut self)
        ensures
            *final(self) == (App { method: method_after(old(self).method), ..*old(self) }),
    {
        self.method = match self.method {
            Method::Get => Method::Post,
            Method::Post => Method::Put,
            Method::Put => Method::Patch,
            Method::Patch => Method::Delete,
            Method::Delete => Method::Get,
        };
    }

    pub fn send_request(&mut self) -> (r: Action)
        ensures
            send_effect(*old(self), *final(self), r),
    {
        if self.is_loading {
            return Action::Nothing;
        }
        match self.substituted_request(false) {
            Err(unresolved) => {
                let mut body = chars_of("Missing variables: ");
                extend_str(&mut body, joined_names(&unresolved).as_str());
                self.response = Some(
                    ResponseState {
                        status: 0,
                        status_text: "Error: unresolved variables".to_owned(),
                        duration: 0,
                        headers: Vec::new(),
                        body: string_from(&body),
                    },
                );
                self.status_message = "Request blocked: unresolved {{variables}}.".to_owned();
                Action::Nothing
            },
            Ok(input) => {
                self.is_loading = true;
                self.status_message = "Sending request...".to_owned();
                Action::Send(input)
            },
        }
    }

    pub fn safe_curl_preview(&self) -> (r: String)
        ensures
            r@ == curl_preview(*self),
    {
        match self.substituted_request(true) {
            Ok(input) => generate_curl(&input),
            Err(unresolved) => {
                let mut text = chars_of("Unresolved variables: ");
                extend_str(&mut text, joined_names(&unresolved).as_str());
                string_from(&text)
            },
        }
    }

    /// The real curl command, to be copied, where every placeholder resolves.
    pub fn copy_curl(&self) -> (r: Action)
        ensures
            unresolved_names(*self, false).is_empty() ==> (r matches Action::Copy(t) && t@
                == curl_of_app(*self, false)),
            !unresolved_names(*self, false).is_empty() ==> r is Nothing,
    {
        match self.substituted_request(false) {
            Ok(input) => Action::Copy(generate_curl(&input)),
            Err(_) => Action::Nothing,
        }
    }

    /// The response body, to be copied, where there is a response.
    pub fn copy_response(&self) -> (r: Action)
        ensures
            self.response matches Some(res) ==> (r matches Action::Copy(t) && t@ == res.body@),
            self.response is None ==> r is Nothing,
    {
        match &self.response {
            Some(res) => Action::Copy(res.body.clone()),
            None => Action::Nothing,
        }
    }

    pub fn clear_inputs(&mut self)
        ensures
            cleared(*old(self), *final(self)),
    {
        self.url_input = empty_input();
        self.headers_input = empty_input();
        self.body_input = empty_input();
        self.auth_input = empty_input();
        self.response = None;
        self.status_message = "Cleared request inputs. Runtime variables kept.".to_owned();
    }

    fn scroll_down(&mut self)
        ensures
            old(self).response matches Some(res) && old(self).response_scroll < max_scroll(res)
                ==> *final(self) == (App {
                response_scroll: (old(self).response_scroll + 1) as u16,
                ..*old(self)
            }),
            !(old(self).response matches Some(res) && old(self).response_scroll < max_scroll(res))
                ==> *final(self) == *old(self),
    {
        let count = match &self.response {
            Some(res) => split_lines(&chars_of(res.body.as_str())).len(),
            None => {
                return;
            },
        };
        let shown = (count % 65536) as u16;
        let max = shown.saturating_sub(1);
        if self.response_scroll < max {
            self.response_scroll = self.response_scroll + 1;
        }
    }
}

/// What a key means in normal mode.
pub enum Command {
    ClearInputs,
    Quit,
    Send,
    CopyCurl,
    CopyResponse,
    CycleMethod,
    FocusExtract,
    EditPane(ActivePane),
    Extract,
    Insert,
    ScrollDown,
    ScrollUp,
    NextPane,
    PrevPane,
    Ignore,
}

/// The command of a key in normal mode, given the current scroll.
pub open spec fn normal_command(key: KeyEvent, scroll: u16) -> Command {
    if key.code == KeyCode::Char('n') && key.control {
        Command::ClearInputs
    } else {
        match key.code {
            KeyCode::Char('q') => Command::Quit,
            KeyCode::Char('s') => Command::Send,
            KeyCode::Char('r') => if key.control {
                Command::Send
            } else {
                Command::Ignore
            },
            KeyCode::Char('y') => Command::CopyCurl,
            KeyCode::Char('c') => Command::CopyResponse,
            KeyCode::Char('m') => Command::CycleMethod,
            KeyCode::Char('v') => Command::FocusExtract,
            KeyCode::Char('e') => Command::EditPane(ActivePane::Extract),
            KeyCode::Char('x') => Command::Extract,
            KeyCode::Char('h') => Command::EditPane(ActivePane::Headers),
            KeyCode::Char('b') => Command::EditPane(ActivePane::Body),
            KeyCode::Char('a') => Command::EditPane(ActivePane::Auth),
            KeyCode::Char('u') => Command::EditPane(ActivePane::Url),
            KeyCode::Enter => Command::Insert,
            KeyCode::Char('i') => Command::Insert,
            KeyCode::Down => Command::ScrollDown,
            KeyCode::Char('j') => Command::ScrollDown,
            KeyCode::Up => if scroll > 0 {
                Command::ScrollUp
            } else {
                Command::Ignore
            },
            KeyCode::Char('k') => if scroll > 0 {
                Command::ScrollUp
            } else {
                Command::Ignore
            },
            KeyCode::Tab => Command::NextPane,
            KeyCode::BackTab => Command::PrevPane,
            _ => Command::Ignore,
        }
    }
}

/// What a key does in normal mode.
pub open spec fn normal_key_effect(before: App, key: KeyEvent, after: App, action: Action) -> bool {
    match normal_command(key, before.response_scroll) {
        Command::ClearInputs => cleared(before, after) && action is ClearInputs,
        Command::Quit => after == (App { should_quit: true, ..before }) && action is Nothing,
        Command::Send => send_effect(before, after, action),
        Command::CopyCurl => after == before && (if unresolved_names(before, false).is_empty() {
            action matches Action::Copy(t) && t@ == curl_of_app(before, false)
        } else {
            action is Nothing
        }),
        Command::CopyResponse => after == before && (match before.response {
            Some(res) => action matches Action::Copy(t) && t@ == res.body@,
            None => action is Nothing,
        }),
        Command::CycleMethod => after == (App { method: method_after(before.method), ..before })
            && action is Nothing,
        Command::FocusExtract => after == (App { active_pane: ActivePane::Extract, ..before })
            && action is Nothing,
        Command::EditPane(p) => after == (App { active_pane: p, mode: Mode::Insert, ..before })
            && action is Nothing,
        Command::Extract => extraction_done(before, after) && action is Nothing,
        Command::Insert => after == (App { mode: Mode::Insert, ..before }) && action is Nothing,
        Command::ScrollDown => action is Nothing && if before.response matches Some(res)
            && before.response_scroll < max_scroll(res) {
            after == (App { response_scroll: (before.response_scroll + 1) as u16, ..before })
        } else {
            after == before
        },
        Command::ScrollUp => after == (App {
            response_scroll: (before.response_scroll - 1) as u16,
            ..before
        }) && action is Nothing,
        Command::NextPane => after == (App { active_pane: pane_after(before.active_pane), ..before })
            && action is Nothing,
        Command::PrevPane => after == (App {
            active_pane: pane_before(before.active_pane),
            ..before
        }) && action is Nothing,
        Command::Ignore => after == before && action is Nothing,
    }
}

/// What a key does in insert mode: `Esc` goes back to normal mode; any
/// other key goes to the focused input (none for the method pane).
pub open spec fn insert_key_effect(before: App, key: KeyEvent, after: App, action: Action) -> bool {
    if key.code == KeyCode::Esc {
        after == (App { mode: Mode::Normal, ..before }) && action is Nothing
    } else {
        after == before && if before.active_pane == ActivePane::Method {
            action is Nothing
        } else {
            action matches Action::Edit(p) && p == before.active_pane
        }
    }
}

/// What a key does: `Ctrl+C` quits in any mode; otherwise the key acts by
/// the mode.
pub open spec fn key_effect(before: App, key: KeyEvent, after: App, action: Action) -> bool {
    if crate::keybindings::quits(key) {
        after == (App { should_quit: true, ..before }) && action is Nothing
    } else if before.mode == Mode::Normal {
        normal_key_effect(before, key, after, action)
    } else {
        insert_key_effect(before, key, after, action)
    }
}

impl App {
    fn handle_normal_key(&mut self, key: KeyEvent) -> (r: Action)
        ensures
            normal_key_effect(*old(self), key, *final(self), r),
    {
        if key.code == KeyCode::Char('n') && key.control {
            self.clear_inputs();
            return Action::ClearInputs;
        }
        match key.code {
            KeyCode::Char('q') => {
                self.should_quit = true;
                Action::Nothing
            },
            KeyCode::Char('s') => self.send_request(),
            KeyCode::Char('r') if key.control => self.send_request(),
            KeyCode::Char('y') => self.copy_curl(),
            KeyCode::Char('c') => self.copy_response(),
            KeyCode::Char('m') => {
                self.cycle_method();
                Action::Nothing
            },
            KeyCode::Char('v') => {
                self.active_pane = ActivePane::Extract;
                Action::Nothing
            },
            KeyCode::Char('e') => {
                self.active_pane = ActivePane::Extract;
                self.mode = Mode::Insert;
                Action::Nothing
            },
            KeyCode::Char('x') => {
                self.run_extraction_on_latest_response();
                Action::Nothing
            },
            KeyCode::Char('h') => {
                self.active_pane = ActivePane::Headers;
                self.mode = Mode::Insert;
                Action::Nothing
            },
            KeyCode::Char('b') => {
                self.active_pane = ActivePane::Body;
                self.mode = Mode::Insert;
                Action::Nothing
            },
            KeyCode::Char('a') => {
                self.active_pane = ActivePane::Auth;
                self.mode = Mode::Insert;
                Action::Nothing
            },
            KeyCode::Char('u') => {
                self.active_pane = ActivePane::Url;
                self.mode = Mode::Insert;
                Action::Nothing
            },
            KeyCode::Enter | KeyCode::Char('i') => {
                self.mode = Mode::Insert;
                Action::Nothing
            },
            KeyCode::Down | KeyCode::Char('j') => {
                self.scroll_down();
                Action::Nothing
            },
            KeyCode::Up if self.response_scroll > 0 => {
                self.response_scroll = self.response_scroll - 1;
                Action::Nothing
            },
            KeyCode::Char('k') if self.response_scroll > 0 => {
                self.response_scroll = self.response_scroll - 1;
                Action::Nothing
            },
            KeyCode::Tab => {
                self.next_pane();
                Action::Nothing
            },
            KeyCode::BackTab => {
                self.prev_pane();
                Action::Nothing
            },
            _ => Action::Nothing,
        }
    }

    fn handle_insert_key(&mut self, key: KeyEvent) -> (r: Action)
        ensures
            insert_key_effect(*old(self), key, *final(self), r),
    {
        if key.code == KeyCode::Esc {
            self.mode = Mode::Normal;
            return Action::Nothing;
        }
        match self.active_pane {
            ActivePane::Method => Action::Nothing,
            pane => Action::Edit(pane),
        }
    }

    /// Handles a key press and says what the surroundings have to do.
    pub fn handle_key(&mut self, key: KeyEvent) -> (r: Action)
        ensures
            key_effect(*old(self), key, *final(self), r),
    {
        if crate::keybindings::is_quit(key) {
            self.should_quit = true;
            return Action::Nothing;
        }
        match self.mode {
            Mode::Normal => self.handle_normal_key(key),
            Mode::Insert => self.handle_insert_key(key),
        }
    }
}

/// How a variable is listed: `name = value`, the value masked where it is
/// secret.
pub open spec fn variable_line(v: RuntimeVariableView) -> Seq<char> {
    v.key + " = "@ + if v.secret {
        masked(v.value)
    } else {
        v.value
    }
}

/// `out` lists every variable once, sorted by the variables' own names
/// (which of two variables of equal name comes first is left open), or says
/// that there are none.
pub open spec fn lists_variables(m: Map<Seq<char>, RuntimeVariableView>, out: Seq<Seq<char>>) -> bool {
    if m.dom().is_empty() {
        out == seq!["No runtime variables."@]
    } else {
        exists|names: Seq<Seq<char>>|
            {
                &&& names.no_duplicates()
                &&& names.to_set() == m.dom()
                &&& names.len() == out.len()
                &&& forall|i: int| 0 <= i < names.len() ==> out[i] == variable_line(#[trigger] m[names[i]])
                &&& forall|i: int, j: int|
                    0 <= i < j < names.len() ==> !text_less(
                        #[trigger] m[names[j]].key,
                        #[trigger] m[names[i]].key,
                    )
            }
    }
}

/// Positions of `entries` ordered by the variables' names, stably.
fn order_by_key(entries: &Vec<(String, RuntimeVariable)>) -> (order: Vec<usize>)
    ensures
        order@.len() == entries@.len(),
        order@.no_duplicates(),
        forall|j: int| 0 <= j < order@.len() ==> order@[j] < entries@.len(),
        forall|t: usize| t < entries@.len() ==> #[trigger] order@.contains(t),
        forall|a: int, b: int|
            0 <= a < b < order@.len() ==> !text_less(
                entries@[order@[b] as int].1.key@,
                entries@[order@[a] as int].1.key@,
            ),
{
    let mut order: Vec<usize> = Vec::new();
    for i in 0..entries.len()
        invariant
            order@.len() == i,
            forall|j: int| 0 <= j < order@.len() ==> order@[j] < i,
            forall|t: usize| t < i ==> #[trigger] order@.contains(t),
            order@.no_duplicates(),
            forall|a: int, b: int|
                0 <= a < b < order@.len() ==> !text_less(
                    entries@[order@[b] as int].1.key@,
                    entries@[order@[a] as int].1.key@,
                ),
    {
        let key = chars_of(entries[i].1.key.as_str());
        let ghost kv = key@;
        let mut p: usize = 0;
        while p < order.len() && !less(&key, &chars_of(entries[order[p]].1.key.as_str()))
            invariant
                p <= order@.len(),
                key@ == kv,
                kv == entries@[i as int].1.key@,
                forall|j: int| 0 <= j < order@.len() ==> order@[j] < entries@.len(),
                forall|j: int| 0 <= j < p ==> !text_less(kv, entries@[order@[j] as int].1.key@),
            decreases order.len() - p,
        {
            p = p + 1;
        }
        let ghost old_order = order@;
        let ghost ks = Seq::new(old_order.len(), |j: int| entries@[old_order[j] as int].1.key@);
        proof {
            if p < old_order.len() {
                assert(text_less(kv, ks[p as int]));
                assert forall|j: int| p <= j < old_order.len() implies text_less(kv, #[trigger] ks[j]) by {
                    if j > p {
                        assert(!text_less(ks[j], ks[p as int]));
                        lemma_text_less_total(ks[j], ks[p as int]);
                        if ks[j] != ks[p as int] {
                            lemma_less_from_transitive(kv, ks[p as int], ks[j], 0);
                        }
                    }
                }
            }
        }
        order.insert(p, i);
        proof {
            let o = order@;
            assert(o =~= old_order.insert(p as int, i));
            assert forall|a: int, b: int| 0 <= a < b < o.len() implies !text_less(
                entries@[o[b] as int].1.key@,
                entries@[o[a] as int].1.key@,
            ) by {
                if b < p {
                } else if b == p {
                    assert(!text_less(kv, ks[a]));
                    if text_less(kv, ks[a]) {
                    }
                } else if a == p {
                    assert(text_less(kv, ks[b - 1]));
                    lemma_less_from_asymmetric(kv, ks[b - 1], 0);
                } else if a < p {
                    assert(text_less(kv, ks[b - 1]));
                    assert(!text_less(kv, ks[a]));
                    if text_less(ks[b - 1], ks[a]) {
                        lemma_less_from_transitive(kv, ks[b - 1], ks[a], 0);
                    }
                } else {
                    assert(!text_less(ks[b - 1], ks[a - 1]));
                }
            }
            assert forall|t: usize| t < i + 1 implies #[trigger] o.contains(t) by {
                if t == i {
                    assert(o[p as int] == i);
                } else {
                    assert(old_order.contains(t));
                    let j = choose|j: int| 0 <= j < old_order.len() && old_order[j] == t;
                    if j < p {
                        assert(o[j] == t);
                    } else {
                        assert(o[j + 1] == t);
                    }
                }
            }
            assert forall|a: int, b: int| 0 <= a < o.len() && 0 <= b < o.len() && a != b implies o[a]
                != o[b] by {
                if a != p && b != p {
                    let a0 = if a < p { a } else { a - 1 };
                    let b0 = if b < p { b } else { b - 1 };
                    assert(old_order[a0] != old_order[b0]);
                }
            }
        }
    }
    order
}

impl App {
    /// The runtime variables, one line each, sorted by name; secret values masked.
    pub fn variable_lines(&self) -> (r: Vec<String>)
        ensures
            lists_variables(self.variables@, string_rows(r@)),
    {
        let entries = self.variables.entries();
        if entries.len() == 0 {
            proof {
                assert(self.variables@.dom() =~= Set::<Seq<char>>::empty());
            }
            let mut v: Vec<String> = Vec::new();
            v.push("No runtime variables.".to_owned());
            assert(string_rows(v@) =~= seq!["No runtime variables."@]);
            return v;
        }
        let order = order_by_key(entries);
        let ghost m = self.variables@;
        let ghost names = Seq::new(order@.len(), |j: int| entries@[order@[j] as int].0@);
        let mut out: Vec<String> = Vec::new();
        for j in 0..order.len()
            invariant
                out@.len() == j,
                order@.len() == entries@.len(),
                forall|t: int| 0 <= t < order@.len() ==> order@[t] < entries@.len(),
                forall|t: usize| t < entries@.len() ==> #[trigger] order@.contains(t),
                names == Seq::new(order@.len(), |t: int| entries@[order@[t] as int].0@),
                forall|t: int|
                    0 <= t < j ==> #[trigger] out@[t]@ == variable_line(
                        entries@[order@[t] as int].1@,
                    ),
        {
            let v = &entries[order[j]].1;
            let mut line = chars_of(v.key.as_str());
            extend_str(&mut line, " = ");
            if v.secret {
                extend_str(&mut line, mask_secret(v.value.as_str()).as_str());
            } else {
                extend_str(&mut line, v.value.as_str());
            }
            out.push(string_from(&line));
        }
        proof {
            assert(self.variables@.dom().contains(entries@[0].0@));
            assert(names.no_duplicates()) by {
                assert forall|a: int, b: int| 0 <= a < b < names.len() implies names[a] != names[b] by {
                    assert(order@[a] != order@[b]);
                    let x = order@[a] as int;
                    let y = order@[b] as int;
                    if x < y {
                        assert(entries@[x].0@ != entries@[y].0@);
                    } else {
                        assert(entries@[y].0@ != entries@[x].0@);
                    }
                }
            }
            assert(names.to_set() =~= m.dom()) by {
                assert forall|kk: Seq<char>| m.dom().contains(kk) implies names.to_set().contains(kk) by {
                    let i = choose|i: int| 0 <= i < entries@.len() && entries@[i].0@ == kk;
                    assert(order@.contains(i as usize));
                    assert(i as usize as int == i);
                    let j = choose|j: int| 0 <= j < order@.len() && order@[j] == i as usize;
                    assert(names[j] == kk);
                }
            }
            let w = names;
            assert forall|i: int| 0 <= i < w.len() implies m[w[i]] == entries@[order@[i] as int].1@ by {
                let x = order@[i] as int;
                assert(m.contains_key(entries@[x].0@));
            }
            assert forall|i: int| 0 <= i < w.len() implies string_rows(out@)[i] == variable_line(
                #[trigger] m[w[i]],
            ) by {
                assert(out@[i]@ == variable_line(entries@[order@[i] as int].1@));
            }
            assert forall|a: int, b: int| 0 <= a < b < w.len() implies !text_less(
                #[trigger] m[w[b]].key,
                #[trigger] m[w[a]].key,
            ) by {
                assert(m[w[a]] == entries@[order@[a] as int].1@);
                assert(m[w[b]] == entries@[order@[b] as int].1@);
            }
            assert(lists_variables(m, string_rows(out@)));
        }
        out
    }
}


/// The safe preview and the request that is sent are blocked by the same
/// unresolved names.
pub proof fn lemma_preview_blocked_like_send(app: App)
    ensures
        unresolved_names(app, true) == unresolved_names(app, false),
{
    lemma_masking_keeps_unresolved(url_text(app), app.variables@);
    lemma_masking_keeps_unresolved(headers_text(app), app.variables@);
    lemma_masking_keeps_unresolved(body_text(app), app.variables@);
    lemma_masking_keeps_unresolved(auth_text(app), app.variables@);
}

/// Every name that blocks a request is one that no runtime variable has.
pub proof fn lemma_blocking_names_missing(app: App, mask_secrets: bool)
    ensures
        forall|n: Seq<char>|
            #[trigger] unresolved_names(app, mask_secrets).contains(n)
                ==> !app.variables@.contains_key(n),
{
    let vars = app.variables@;
    lemma_unresolved_are_missing(url_text(app), vars, mask_secrets);
    lemma_unresolved_are_missing(headers_text(app), vars, mask_secrets);
    lemma_unresolved_are_missing(body_text(app), vars, mask_secrets);
    lemma_unresolved_are_missing(auth_text(app), vars, mask_secrets);
    assert forall|n: Seq<char>| #[trigger] unresolved_names(app, mask_secrets).contains(n)
        implies !vars.contains_key(n) by {
        let a = substitution(url_text(app), vars, mask_secrets).1;
        let b = substitution(headers_text(app), vars, mask_secrets).1;
        let c = substitution(body_text(app), vars, mask_secrets).1;
        let d = substitution(auth_text(app), vars, mask_secrets).1;
        if a.contains(n) {
            let i = choose|i: int| 0 <= i < a.len() && a[i] == n;
            assert(!vars.contains_key(a[i]));
        } else if b.contains(n) {
            let i = choose|i: int| 0 <= i < b.len() && b[i] == n;
            assert(!vars.contains_key(b[i]));
        } else if c.contains(n) {
            let i = choose|i: int| 0 <= i < c.len() && c[i] == n;
            assert(!vars.contains_key(c[i]));
        } else {
            assert(d.contains(n));
            let i = choose|i: int| 0 <= i < d.len() && d[i] == n;
            assert(!vars.contains_key(d[i]));
        }
    }
}

/// Where no runtime variable is secret, the preview on screen is the
/// command that is copied.
pub proof fn lemma_preview_without_secrets(app: App)
    requires
        forall|k: Seq<char>|
            app.variables@.contains_key(k) ==> !(#[trigger] app.variables@[k]).secret,
        unresolved_names(app, false).is_empty(),
    ensures
        curl_preview(app) == curl_of_app(app, false),
{
    let vars = app.variables@;
    lemma_masking_without_secrets(url_text(app), vars);
    lemma_masking_without_secrets(headers_text(app), vars);
    lemma_masking_without_secrets(body_text(app), vars);
    lemma_masking_without_secrets(auth_text(app), vars);
    lemma_preview_blocked_like_send(app);
}

/// Keys change the runtime variables only by running the extraction rules:
/// clearing the inputs, sending and every other key keep them.
pub proof fn lemma_keys_keep_variables(before: App, key: KeyEvent, after: App, action: Action)
    requires
        key_effect(before, key, after, action),
        !(before.mode == Mode::Normal && !crate::keybindings::quits(key) && normal_command(
            key,
            before.response_scroll,
        ) is Extract),
    ensures
        after.variables == before.variables,
{
}

/// No request is handed out to be sent while another is on its way.
pub proof fn lemma_no_send_while_loading(before: App, key: KeyEvent, after: App, action: Action)
    requires
        key_effect(before, key, after, action),
        before.is_loading,
    ensures
        !(action is Send),
{
}

/// A key starts loading only by handing out a request to be sent.
pub proof fn lemma_loading_starts_with_send(before: App, key: KeyEvent, after: App, action: Action)
    requires
        key_effect(before, key, after, action),
        !before.is_loading,
        after.is_loading,
    ensures
        action is Send,
{
}

/// A key without Control.
pub open spec fn plain_key(code: KeyCode) -> KeyEvent {
    KeyEvent { code, control: false }
}

/// A key with Control held.
pub open spec fn control_key(c: char) -> KeyEvent {
    KeyEvent { code: KeyCode::Char(c), control: true }
}

/// What the keys of normal mode do: `e`, `h`, `b`, `a` and `u` focus the
/// extraction rules, headers, body, auth and URL and start editing them;
/// `i` and Enter start editing the focused pane; `v` only focuses the
/// extraction rules; `q` quits; Tab and Shift+Tab move between panes; `m`
/// takes the next method; Ctrl+n clears the inputs; a plain `r` does
/// nothing. None of these hands anything out but Ctrl+n.
pub proof fn lemma_normal_mode_keys(before: App, after: App, action: Action)
    requires
        before.mode == Mode::Normal,
    ensures
        key_effect(before, plain_key(KeyCode::Char('e')), after, action) ==> after == (App {
            active_pane: ActivePane::Extract,
            mode: Mode::Insert,
            ..before
        }) && action is Nothing,
        key_effect(before, plain_key(KeyCode::Char('h')), after, action) ==> after == (App {
            active_pane: ActivePane::Headers,
            mode: Mode::Insert,
            ..before
        }) && action is Nothing,
        key_effect(before, plain_key(KeyCode::Char('b')), after, action) ==> after == (App {
            active_pane: ActivePane::Body,
            mode: Mode::Insert,
            ..before
        }) && action is Nothing,
        key_effect(before, plain_key(KeyCode::Char('a')), after, action) ==> after == (App {
            active_pane: ActivePane::Auth,
            mode: Mode::Insert,
            ..before
        }) && action is Nothing,
        key_effect(before, plain_key(KeyCode::Char('u')), after, action) ==> after == (App {
            active_pane: ActivePane::Url,
            mode: Mode::Insert,
            ..before
        }) && action is Nothing,
        key_effect(before, plain_key(KeyCode::Char('i')), after, action) ==> after == (App {
            mode: Mode::Insert,
            ..before
        }) && action is Nothing,
        key_effect(before, plain_key(KeyCode::Enter), after, action) ==> after == (App {
            mode: Mode::Insert,
            ..before
        }) && action is Nothing,
        key_effect(before, plain_key(KeyCode::Char('v')), after, action) ==> after == (App {
            active_pane: ActivePane::Extract,
            ..before
        }) && action is Nothing,
        key_effect(before, plain_key(KeyCode::Char('q')), after, action) ==> after == (App {
            should_quit: true,
            ..before
        }) && action is Nothing,
        key_effect(before, plain_key(KeyCode::Tab), after, action) ==> after == (App {
            active_pane: pane_after(before.active_pane),
            ..before
        }) && action is Nothing,
        key_effect(before, plain_key(KeyCode::BackTab), after, action) ==> after == (App {
            active_pane: pane_before(before.active_pane),
            ..before
        }) && action is Nothing,
        key_effect(before, plain_key(KeyCode::Char('m')), after, action) ==> after == (App {
            method: method_after(before.method),
            ..before
        }) && action is Nothing,
        key_effect(before, control_key('n'), after, action) ==> after.mode == before.mode
            && after.active_pane == before.active_pane && after.variables == before.variables
            && after.extraction_input == before.extraction_input && after.response is None
            && action is ClearInputs,
        key_effect(before, plain_key(KeyCode::Char('r')), after, action) ==> after == before
            && action is Nothing,
{
}

/// In insert mode Esc goes back to normal mode, and every other key but
/// Ctrl+C goes to the focused input and changes nothing else.
pub proof fn lemma_insert_mode_keys(before: App, key: KeyEvent, after: App, action: Action)
    requires
        before.mode == Mode::Insert,
        key_effect(before, key, after, action),
        !crate::keybindings::quits(key),
    ensures
        key.code == KeyCode::Esc ==> after == (App { mode: Mode::Normal, ..before }),
        key.code != KeyCode::Esc ==> after == before,
        key.code != KeyCode::Esc && before.active_pane != ActivePane::Method ==> (
        action matches Action::Edit(p) && p == before.active_pane),
{
}

} // verus!
