use vstd::prelude::*;
use vstd::set_lib::{lemma_int_range, lemma_len_subset, lemma_subset_equality, set_int_range};
use vstd::string::StringExecFns;

verus! {

/// The method of a request.
#[derive(Clone, Copy, Debug, PartialEq, Eq, Structural)]
pub enum Method {
    Get,
    Post,
    Put,
    Delete,
}

/// The name of the header that declares the type of a request's content.
pub const CONTENT_TYPE: &'static str = "Content-Type";

/// The content type that every request declares.
pub const JSON: &'static str = "application/json";

/// A header of a request.
#[derive(Clone, Debug, PartialEq, Eq)]
pub struct Header {
    pub name: String,
    pub value: String,
}

/// A header as text.
pub struct HeaderView {
    pub name: Seq<char>,
    pub value: Seq<char>,
}

impl View for Header {
    type V = HeaderView;

    open spec fn view(&self) -> HeaderView {
        HeaderView { name: self.name@, value: self.value@ }
    }
}

/// A request that is ready to be sent.
#[derive(Clone, Debug, PartialEq, Eq)]
pub struct Request {
    pub method: Method,
    pub url: String,
    pub headers: Vec<Header>,
    /// The body as JSON text; a request without a body has none.
    pub body: Option<String>,
}

/// A request as text.
pub struct RequestView {
    pub method: Method,
    pub url: Seq<char>,
    pub headers: Seq<HeaderView>,
    pub body: Option<Seq<char>>,
}

/// The views of `headers`, in order.
pub open spec fn header_views(headers: Seq<Header>) -> Seq<HeaderView> {
    Seq::new(headers.len(), |i: int| headers[i]@)
}

impl View for Request {
    type V = RequestView;

    open spec fn view(&self) -> RequestView {
        RequestView {
            method: self.method,
            url: self.url@,
            headers: header_views(self.headers@),
            body: self.body.deep_view(),
        }
    }
}

/// The request with `method` to `url` that carries `body`. Its one header
/// declares the content to be JSON.
pub open spec fn request(method: Method, url: Seq<char>, body: Option<Seq<char>>) -> RequestView {
    RequestView {
        method,
        url,
        headers: seq![HeaderView { name: CONTENT_TYPE@, value: JSON@ }],
        body,
    }
}

/// The headers that every request carries.
fn json_headers() -> (headers: Vec<Header>)
    ensures
        header_views(headers@) == seq![HeaderView { name: CONTENT_TYPE@, value: JSON@ }],
{
    let mut headers: Vec<Header> = Vec::new();
    headers.push(Header { name: String::from_str(CONTENT_TYPE), value: String::from_str(JSON) });
    assert(header_views(headers@) =~= seq![HeaderView { name: CONTENT_TYPE@, value: JSON@ }]);
    headers
}

/// A DELETE request to `url`.
pub fn delete(url: &str) -> (made: Request)
    ensures
        made@ == request(Method::Delete, url@, None),
{
    Request { method: Method::Delete, url: String::from_str(url), headers: json_headers(), body: None }
}

/// A GET request to `url`.
pub fn get(url: &str) -> (made: Request)
    ensures
        made@ == request(Method::Get, url@, None),
{
    Request { method: Method::Get, url: String::from_str(url), headers: json_headers(), body: None }
}

/// A POST request to `url` that carries the JSON text `post_data`.
pub fn post(url: &str, post_data: String) -> (made: Request)
    ensures
        made@ == request(Method::Post, url@, Some(post_data@)),
{
    Request {
        method: Method::Post,
        url: String::from_str(url),
        headers: json_headers(),
        body: Some(post_data),
    }
}

/// A PUT request to `url` that carries the JSON text `post_data`.
pub fn put(url: &str, post_data: String) -> (made: Request)
    ensures
        made@ == request(Method::Put, url@, Some(post_data@)),
{
    Request {
        method: Method::Put,
        url: String::from_str(url),
        headers: json_headers(),
        body: Some(post_data),
    }
}

/// The status that stands for a failed authentication.
pub const UNAUTHORIZED: u16 = 401;

/// The status that stands for a request that was cancelled on this side.
pub const CANCELLED: u16 = 408;

/// `status` is one of the success statuses, 200 to 299.
pub open spec fn is_success(status: u16) -> bool {
    200 <= status < 300
}

/// How a request ended.
#[derive(Debug, PartialEq, Eq)]
pub enum Outcome<T, E> {
    /// A success status, and the body had the expected shape.
    Success(T),
    /// A success status, but the body did not have the expected shape.
    DecodeFailure(E),
    /// The server did not accept the session.
    AuthFailure,
    /// The request was cancelled on this side.
    Cancelled,
    /// Any other status.
    HttpFailure,
}

/// What is to be done once a request has ended.
#[derive(Debug, PartialEq, Eq)]
pub enum Action<T, E> {
    /// Hand the value to whoever asked for it.
    Emit(T),
    /// Write a diagnostic, with the decoding error if there is one.
    Report(Option<E>),
    /// Do nothing.
    Ignore,
}

/// How a request ended that was answered with `status` and whose body was
/// decoded to `body`.
pub open spec fn outcome_of<T, E>(status: u16, body: Result<T, E>) -> Outcome<T, E> {
    if is_success(status) {
        match body {
            Ok(value) => Outcome::Success(value),
            Err(error) => Outcome::DecodeFailure(error),
        }
    } else if status == UNAUTHORIZED {
        Outcome::AuthFailure
    } else if status == CANCELLED {
        Outcome::Cancelled
    } else {
        Outcome::HttpFailure
    }
}

/// What is to be done about `outcome`: a value is handed on, a cancellation
/// is passed over in silence, and every failure is reported.
pub open spec fn action_for<T, E>(outcome: Outcome<T, E>) -> Action<T, E> {
    match outcome {
        Outcome::Success(value) => Action::Emit(value),
        Outcome::DecodeFailure(error) => Action::Report(Some(error)),
        Outcome::AuthFailure => Action::Report(None),
        Outcome::Cancelled => Action::Ignore,
        Outcome::HttpFailure => Action::Report(None),
    }
}

/// Tells how a request ended from the status of its response and from what
/// its body was decoded to.
pub fn classify<T, E>(status: u16, body: Result<T, E>) -> (outcome: Outcome<T, E>)
    ensures
        outcome == outcome_of(status, body),
{
    if 200 <= status && status < 300 {
        match body {
            Ok(value) => Outcome::Success(value),
            Err(error) => Outcome::DecodeFailure(error),
        }
    } else if status == UNAUTHORIZED {
        Outcome::AuthFailure
    } else if status == CANCELLED {
        Outcome::Cancelled
    } else {
        Outcome::HttpFailure
    }
}

impl<T, E> Outcome<T, E> {
    /// What is to be done about this outcome.
    pub fn into_action(self) -> (action: Action<T, E>)
        ensures
            action == action_for(self),
    {
        match self {
            Outcome::Success(value) => Action::Emit(value),
            Outcome::DecodeFailure(error) => Action::Report(Some(error)),
            Outcome::AuthFailure => Action::Report(None),
            Outcome::Cancelled => Action::Ignore,
            Outcome::HttpFailure => Action::Report(None),
        }
    }
}

/// What is to be done about a response with `status` whose body was decoded
/// to `body`.
pub fn handle_response<T, E>(status: u16, body: Result<T, E>) -> (action: Action<T, E>)
    ensures
        action == action_for(outcome_of(status, body)),
{
    classify(status, body).into_action()
}

/// A request that a fetcher keeps track of, under the ticket it was sent
/// with. It is active until its response has arrived.
#[derive(Clone, Copy, Debug, PartialEq, Eq, Structural)]
pub struct FetchTask {
    pub ticket: usize,
    pub active: bool,
}

/// Some task in `tasks` holds `ticket`.
pub open spec fn uses(tasks: Seq<FetchTask>, ticket: int) -> bool {
    exists|i: int| 0 <= i < tasks.len() && (#[trigger] tasks[i]).ticket == ticket
}

/// `ticket` is the smallest ticket that no task in `tasks` holds.
pub open spec fn is_fresh(tasks: Seq<FetchTask>, ticket: int) -> bool {
    &&& 0 <= ticket
    &&& !uses(tasks, ticket)
    &&& forall|lower: int| 0 <= lower < ticket ==> #[trigger] uses(tasks, lower)
}

/// The smallest ticket that no task in `tasks` holds.
pub open spec fn fresh_ticket(tasks: Seq<FetchTask>) -> int {
    choose|ticket: int| is_fresh(tasks, ticket)
}

/// No two tasks in `tasks` hold the same ticket.
pub open spec fn distinct_tickets(tasks: Seq<FetchTask>) -> bool {
    forall|i: int, j: int|
        0 <= i < j < tasks.len() ==> (#[trigger] tasks[i]).ticket != (#[trigger] tasks[j]).ticket
}

/// The test that a task passes that is still active.
pub open spec fn still_active() -> spec_fn(FetchTask) -> bool {
    |task: FetchTask| task.active
}

/// The tasks in `tasks` that are still active, in their order.
pub open spec fn in_flight(tasks: Seq<FetchTask>) -> Seq<FetchTask> {
    tasks.filter(still_active())
}

/// `tasks` after one more request has been sent: the tasks that have ended
/// are gone, and the new one stands last, active, under the fresh ticket.
pub open spec fn issued(tasks: Seq<FetchTask>) -> Seq<FetchTask> {
    let kept = in_flight(tasks);
    kept.push(FetchTask { ticket: fresh_ticket(kept) as usize, active: true })
}

/// `tasks` after `count` more requests have been sent, one after the other.
pub open spec fn issued_times(tasks: Seq<FetchTask>, count: nat) -> Seq<FetchTask>
    decreases count,
{
    if count == 0 {
        tasks
    } else {
        issued(issued_times(tasks, (count - 1) as nat))
    }
}

/// `tasks` after the response to the request sent with `ticket` has arrived.
pub open spec fn settled(tasks: Seq<FetchTask>, ticket: usize) -> Seq<FetchTask> {
    Seq::new(
        tasks.len(),
        |i: int|
            if tasks[i].ticket == ticket {
                FetchTask { ticket, active: false }
            } else {
                tasks[i]
            },
    )
}

/// Some task in `tasks` is active.
pub open spec fn any_active(tasks: Seq<FetchTask>) -> bool {
    exists|i: int| 0 <= i < tasks.len() && (#[trigger] tasks[i]).active
}

/// Tasks that hold every ticket below their number hold no other ticket.
pub proof fn lemma_tickets_run_out(tasks: Seq<FetchTask>)
    requires
        forall|lower: int| 0 <= lower < tasks.len() ==> #[trigger] uses(tasks, lower),
    ensures
        is_fresh(tasks, tasks.len() as int),
{
    let n = tasks.len() as int;
    let tickets = Seq::new(tasks.len(), |i: int| tasks[i].ticket as int);
    let held = tickets.to_set();
    let below = set_int_range(0, n);
    assert(below.subset_of(held)) by {
        assert forall|t: int| below.contains(t) implies held.contains(t) by {
            assert(uses(tasks, t));
            let i = choose|i: int| 0 <= i < tasks.len() && (#[trigger] tasks[i]).ticket == t;
            assert(tickets[i] == t);
        }
    }
    vstd::seq_lib::seq_to_set_is_finite(tickets);
    tickets.lemma_cardinality_of_set();
    lemma_int_range(0, n);
    lemma_len_subset(below, held);
    lemma_subset_equality(below, held);
    if uses(tasks, n) {
        let i = choose|i: int| 0 <= i < tasks.len() && (#[trigger] tasks[i]).ticket == n;
        assert(tickets[i] == n);
        assert(held.contains(n));
        assert(below.contains(n));
    }
}

/// Some ticket below `bound` is fresh, or every ticket below `bound` is held.
proof fn lemma_fresh_or_held(tasks: Seq<FetchTask>, bound: int)
    requires
        0 <= bound,
    ensures
        (exists|ticket: int| is_fresh(tasks, ticket) && ticket < bound) || (forall|lower: int|
            0 <= lower < bound ==> #[trigger] uses(tasks, lower)),
    decreases bound,
{
    if bound > 0 {
        lemma_fresh_or_held(tasks, bound - 1);
        if !(exists|ticket: int| is_fresh(tasks, ticket) && ticket < bound - 1) && !uses(
            tasks,
            bound - 1,
        ) {
            assert(is_fresh(tasks, bound - 1));
        }
    }
}

/// Every list of tasks has one fresh ticket, and it is at most their number.
pub proof fn lemma_fresh_ticket(tasks: Seq<FetchTask>)
    ensures
        is_fresh(tasks, fresh_ticket(tasks)),
        fresh_ticket(tasks) <= tasks.len(),
        forall|ticket: int| is_fresh(tasks, ticket) ==> ticket == fresh_ticket(tasks),
{
    lemma_fresh_or_held(tasks, tasks.len() as int);
    if !(exists|ticket: int| is_fresh(tasks, ticket) && ticket < tasks.len()) {
        lemma_tickets_run_out(tasks);
    }
    let fresh = fresh_ticket(tasks);
    assert forall|ticket: int| is_fresh(tasks, ticket) implies ticket == fresh by {
        if ticket < fresh {
            assert(uses(tasks, ticket));
        } else if fresh < ticket {
            assert(uses(tasks, fresh));
        }
    }
}

/// Tells whether some task in `tasks` holds `ticket`.
fn is_used(tasks: &Vec<FetchTask>, ticket: usize) -> (used: bool)
    ensures
        used == uses(tasks@, ticket as int),
{
    let mut i: usize = 0;
    while i < tasks.len()
        invariant
            i <= tasks.len(),
            forall|a: int| 0 <= a < i ==> (#[trigger] tasks@[a]).ticket != ticket,
        decreases tasks.len() - i,
    {
        if tasks[i].ticket == ticket {
            return true;
        }
        i += 1;
    }
    false
}

/// The smallest ticket that no task in `tasks` holds.
fn next_ticket(tasks: &Vec<FetchTask>) -> (ticket: usize)
    ensures
        ticket == fresh_ticket(tasks@),
        is_fresh(tasks@, ticket as int),
{
    proof {
        lemma_fresh_ticket(tasks@);
    }
    let mut candidate: usize = 0;
    while candidate < tasks.len()
        invariant
            candidate <= tasks.len(),
            forall|lower: int| 0 <= lower < candidate ==> #[trigger] uses(tasks@, lower),
            forall|ticket: int| is_fresh(tasks@, ticket) ==> ticket == fresh_ticket(tasks@),
        decreases tasks.len() - candidate,
    {
        if !is_used(tasks, candidate) {
            assert(is_fresh(tasks@, candidate as int));
            return candidate;
        }
        candidate += 1;
    }
    proof {
        lemma_tickets_run_out(tasks@);
    }
    candidate
}

/// The active tasks of tasks with distinct tickets have distinct tickets,
/// and hold no ticket that was not held before.
pub proof fn lemma_in_flight_distinct(tasks: Seq<FetchTask>)
    requires
        distinct_tickets(tasks),
    ensures
        distinct_tickets(in_flight(tasks)),
        in_flight(tasks).len() <= tasks.len(),
        forall|i: int|
            0 <= i < in_flight(tasks).len() ==> (#[trigger] in_flight(tasks)[i]).active && uses(
                tasks,
                in_flight(tasks)[i].ticket as int,
            ),
    decreases tasks.len(),
{
    reveal(Seq::filter);
    if tasks.len() > 0 {
        let front = tasks.drop_last();
        let last = tasks.last();
        lemma_in_flight_distinct(front);
        let kept = in_flight(front);
        let after = in_flight(tasks);
        assert(after == if last.active {
            kept.push(last)
        } else {
            kept
        });
        assert forall|i: int| 0 <= i < after.len() implies (#[trigger] after[i]).active && uses(
            tasks,
            after[i].ticket as int,
        ) by {
            if i < kept.len() {
                assert(after[i] == kept[i]);
                let a = choose|a: int|
                    0 <= a < front.len() && (#[trigger] front[a]).ticket == kept[i].ticket;
                assert(tasks[a].ticket == kept[i].ticket);
            } else {
                assert(tasks[tasks.len() - 1].ticket == after[i].ticket);
            }
        }
        assert forall|i: int, j: int| 0 <= i < j < after.len() implies (#[trigger] after[i]).ticket
            != (#[trigger] after[j]).ticket by {
            assert(after[i] == kept[i]);
            if j < kept.len() {
                assert(after[j] == kept[j]);
            } else {
                let a = choose|a: int|
                    0 <= a < front.len() && (#[trigger] front[a]).ticket == kept[i].ticket;
                assert(tasks[a].ticket != tasks[tasks.len() - 1].ticket);
            }
        }
    }
}

/// Sending one more request keeps the tickets distinct.
pub proof fn lemma_issued_distinct(tasks: Seq<FetchTask>)
    requires
        distinct_tickets(tasks),
        tasks.len() <= usize::MAX,
    ensures
        distinct_tickets(issued(tasks)),
{
    lemma_in_flight_distinct(tasks);
    let kept = in_flight(tasks);
    lemma_fresh_ticket(kept);
    let after = issued(tasks);
    assert forall|i: int, j: int| 0 <= i < j < after.len() implies (#[trigger] after[i]).ticket != (
    #[trigger] after[j]).ticket by {
        assert(after[i] == kept[i]);
        if j < kept.len() {
            assert(after[j] == kept[j]);
        }
    }
}

/// Taking in a response keeps the tickets distinct.
pub proof fn lemma_settled_distinct(tasks: Seq<FetchTask>, ticket: usize)
    requires
        distinct_tickets(tasks),
    ensures
        distinct_tickets(settled(tasks, ticket)),
{
    let after = settled(tasks, ticket);
    assert forall|i: int, j: int| 0 <= i < j < after.len() implies (#[trigger] after[i]).ticket != (
    #[trigger] after[j]).ticket by {
        assert(after[i].ticket == tasks[i].ticket);
        assert(after[j].ticket == tasks[j].ticket);
    }
}

/// `tasks` after one more request has been sent and its response has
/// arrived.
pub open spec fn cycle(tasks: Seq<FetchTask>) -> Seq<FetchTask> {
    let sent = issued(tasks);
    settled(sent, sent.last().ticket)
}

/// `tasks` after `count` requests, each sent only when the response to the
/// one before it had arrived.
pub open spec fn cycles(tasks: Seq<FetchTask>, count: nat) -> Seq<FetchTask>
    decreases count,
{
    if count == 0 {
        tasks
    } else {
        cycle(cycles(tasks, (count - 1) as nat))
    }
}

/// Where no request is under way, sending one leaves it as the only task
/// that is tracked, and so does the arrival of its response.
pub proof fn lemma_cycle_when_idle(tasks: Seq<FetchTask>)
    requires
        !any_active(tasks),
    ensures
        issued(tasks) == seq![FetchTask { ticket: 0, active: true }],
        cycle(tasks) == seq![FetchTask { ticket: 0, active: false }],
{
    lemma_none_in_flight(tasks);
    let none = Seq::<FetchTask>::empty();
    lemma_fresh_ticket(none);
    assert(issued(tasks) =~= seq![FetchTask { ticket: 0, active: true }]);
    assert(cycle(tasks) =~= seq![FetchTask { ticket: 0, active: false }]);
}

/// Tasks of which none is active have none in flight.
proof fn lemma_none_in_flight(tasks: Seq<FetchTask>)
    requires
        !any_active(tasks),
    ensures
        in_flight(tasks) == Seq::<FetchTask>::empty(),
    decreases tasks.len(),
{
    reveal(Seq::filter);
    if tasks.len() > 0 {
        assert(!tasks[tasks.len() - 1].active);
        assert forall|i: int| 0 <= i < tasks.drop_last().len() implies !(
        #[trigger] tasks.drop_last()[i]).active by {
            assert(!tasks[i].active);
        }
        lemma_none_in_flight(tasks.drop_last());
    }
}

/// A fetcher that starts with nothing and sends its requests one at a time
/// never tracks more than one task: not after any number of requests and
/// responses, and not while the next request is under way.
pub proof fn lemma_one_at_a_time(count: nat)
    ensures
        cycles(Seq::empty(), count).len() <= 1,
        !any_active(cycles(Seq::empty(), count)),
        issued(cycles(Seq::empty(), count)).len() == 1,
    decreases count,
{
    if count > 0 {
        lemma_one_at_a_time((count - 1) as nat);
        lemma_cycle_when_idle(cycles(Seq::empty(), (count - 1) as nat));
    }
    lemma_cycle_when_idle(cycles(Seq::empty(), count));
}

/// A request together with the ticket it is tracked under.
#[derive(Clone, Debug, PartialEq, Eq)]
pub struct Dispatch {
    pub ticket: usize,
    pub request: Request,
}

/// Keeps track of the requests that are under way.
pub struct Fetcher {
    tasks: Vec<FetchTask>,
}

impl View for Fetcher {
    type V = Seq<FetchTask>;

    closed spec fn view(&self) -> Seq<FetchTask> {
        self.tasks@
    }
}

impl Fetcher {
    #[verifier::type_invariant]
    pub(crate) open spec fn inv(&self) -> bool {
        distinct_tickets(self@)
    }

    /// A fetcher that tracks nothing.
    pub fn new() -> (fetcher: Self)
        ensures
            fetcher@ == Seq::<FetchTask>::empty(),
            distinct_tickets(fetcher@),
    {
        Fetcher { tasks: Vec::new() }
    }

    /// Tracks a DELETE request to `url` and hands it back to be sent.
    pub fn delete(&mut self, url: &str) -> (sent: Dispatch)
        ensures
            final(self)@ == issued(old(self)@),
            sent.ticket == final(self)@.last().ticket,
            sent.request@ == request(Method::Delete, url@, None),
            distinct_tickets(final(self)@),
    {
        let ticket = self.push_task();
        Dispatch { ticket, request: delete(url) }
    }

    /// Tracks a GET request to `url` and hands it back to be sent.
    pub fn get(&mut self, url: &str) -> (sent: Dispatch)
        ensures
            final(self)@ == issued(old(self)@),
            sent.ticket == final(self)@.last().ticket,
            sent.request@ == request(Method::Get, url@, None),
            distinct_tickets(final(self)@),
    {
        let ticket = self.push_task();
        Dispatch { ticket, request: get(url) }
    }

    /// Tells whether a request is still under way.
    pub fn is_active(&self) -> (active: bool)
        ensures
            active == any_active(self@),
            distinct_tickets(self@),
    {
        proof {
            use_type_invariant(self);
        }
        let mut i: usize = 0;
        while i < self.tasks.len()
            invariant
                i <= self.tasks.len(),
                distinct_tickets(self@),
                forall|a: int| 0 <= a < i ==> !(#[trigger] self.tasks@[a]).active,
            decreases self.tasks.len() - i,
        {
            if self.tasks[i].active {
                return true;
            }
            i += 1;
        }
        false
    }

    /// Tracks a POST request to `url` with the JSON text `post_data` and hands
    /// it back to be sent.
    pub fn post(&mut self, url: &str, post_data: String) -> (sent: Dispatch)
        ensures
            final(self)@ == issued(old(self)@),
            sent.ticket == final(self)@.last().ticket,
            sent.request@ == request(Method::Post, url@, Some(post_data@)),
            distinct_tickets(final(self)@),
    {
        let ticket = self.push_task();
        Dispatch { ticket, request: post(url, post_data) }
    }

    /// Tracks a PUT request to `url` with the JSON text `post_data` and hands
    /// it back to be sent.
    pub fn put(&mut self, url: &str, post_data: String) -> (sent: Dispatch)
        ensures
            final(self)@ == issued(old(self)@),
            sent.ticket == final(self)@.last().ticket,
            sent.request@ == request(Method::Put, url@, Some(post_data@)),
            distinct_tickets(final(self)@),
    {
        let ticket = self.push_task();
        Dispatch { ticket, request: put(url, post_data) }
    }

    /// Drops the tasks that have ended and tracks a new one, whose ticket it
    /// returns.
    fn push_task(&mut self) -> (ticket: usize)
        ensures
            final(self)@ == issued(old(self)@),
            ticket == final(self)@.last().ticket,
            distinct_tickets(final(self)@),
    {
        proof {
            use_type_invariant(&*self);
            assert(self.tasks@.len() == self.tasks.len());
            lemma_issued_distinct(self@);
        }
        let mut kept: Vec<FetchTask> = Vec::new();
        let mut i: usize = 0;
        assert(self.tasks@.take(0) =~= Seq::<FetchTask>::empty());
        while i < self.tasks.len()
            invariant
                i <= self.tasks.len(),
                kept@ == in_flight(self.tasks@.take(i as int)),
            decreases self.tasks.len() - i,
        {
            proof {
                self.tasks@.lemma_take_succ_push(i as int);
                self.tasks@.take(i as int).lemma_filter_push(self.tasks@[i as int], still_active());
            }
            if self.tasks[i].active {
                kept.push(self.tasks[i]);
            }
            i += 1;
        }
        assert(self.tasks@.take(i as int) =~= self.tasks@);
        let ticket = next_ticket(&kept);
        kept.push(FetchTask { ticket, active: true });
        self.tasks = kept;
        ticket
    }

    /// Tells whether a task is tracked under `ticket`.
    pub fn tracks(&self, ticket: usize) -> (held: bool)
        ensures
            held == uses(self@, ticket as int),
            distinct_tickets(self@),
    {
        proof {
            use_type_invariant(self);
        }
        is_used(&self.tasks, ticket)
    }

    /// The number of tasks that are tracked.
    pub fn len(&self) -> (count: usize)
        ensures
            count == self@.len(),
            distinct_tickets(self@),
    {
        proof {
            use_type_invariant(self);
        }
        self.tasks.len()
    }

    /// Marks the task that holds `ticket` as ended.
    pub fn finish(&mut self, ticket: usize)
        ensures
            final(self)@ == settled(old(self)@, ticket),
            distinct_tickets(final(self)@),
    {
        proof {
            use_type_invariant(&*self);
            lemma_settled_distinct(self@, ticket);
        }
        let mut tasks: Vec<FetchTask> = Vec::new();
        let mut i: usize = 0;
        while i < self.tasks.len()
            invariant
                i <= self.tasks.len(),
                tasks@ == settled(self.tasks@, ticket).take(i as int),
            decreases self.tasks.len() - i,
        {
            let task = self.tasks[i];
            if task.ticket == ticket {
                tasks.push(FetchTask { ticket, active: false });
            } else {
                tasks.push(task);
            }
            i += 1;
            assert(tasks@ =~= settled(self.tasks@, ticket).take(i as int));
        }
        assert(tasks@ =~= settled(self.tasks@, ticket));
        self.tasks = tasks;
    }

    /// Takes in the response to the request sent with `ticket`: the task has
    /// ended, and the status and the decoded body decide what is to be done.
    pub fn respond<T, E>(&mut self, ticket: usize, status: u16, body: Result<T, E>) -> (action:
        Action<T, E>)
        ensures
            final(self)@ == settled(old(self)@, ticket),
            distinct_tickets(final(self)@),
            action == action_for(outcome_of(status, body)),
    {
        self.finish(ticket);
        handle_response(status, body)
    }
}

} // verus!
