//! Conversations in the shape that chat templates accept: an optional system
//! message, then user and assistant in turn, the user first.

use vstd::prelude::*;
use vstd::string::StringExecFns;

use crate::models::{message_views, opt_text, Message, MessageView};
use crate::text::{
    ascii_lower, blank, byte_len, bytes_of, contains, has, is_blank, join, joined,
    lemma_contains_add, lemma_contains_between, lemma_contains_chain, lemma_join_add, lemma_join_contains,
    lemma_join_front, same, to_ascii_lower, trim, trimmed, views,
};

verus! {

/// A message as the chat endpoint takes it.
#[derive(Debug, PartialEq, Eq)]
pub struct ApiMessage {
    pub role: String,
    pub content: String,
}

/// What an `ApiMessage` holds.
pub struct ApiView {
    pub role: Seq<char>,
    pub content: Seq<char>,
}

impl View for ApiMessage {
    type V = ApiView;

    open spec fn view(&self) -> ApiView {
        ApiView { role: self.role@, content: self.content@ }
    }
}

impl Clone for ApiMessage {
    fn clone(&self) -> (r: ApiMessage)
        ensures
            r@ == self@,
    {
        ApiMessage { role: self.role.clone(), content: self.content.clone() }
    }
}

/// The views of a list of messages.
pub open spec fn api_views(v: Seq<ApiMessage>) -> Seq<ApiView> {
    v.map_values(|m: ApiMessage| m@)
}

/// What is known of the chat template of the model.
#[derive(Debug, Clone, Copy, PartialEq, Eq, Structural)]
pub enum TemplateProfile {
    StandardAlternating,
    SystemSupported,
    NoSystem,
    TemplateDriven,
}

/// A conversation ready to be sent, and the same one for templates that turn out
/// not to take a system message.
#[derive(Debug, PartialEq, Eq)]
pub struct PreparedConversation {
    pub messages: Vec<ApiMessage>,
    pub fallback_without_system: Vec<ApiMessage>,
    pub profile: TemplateProfile,
}

/// Why a conversation cannot be sent.
#[derive(Debug, Clone, Copy, PartialEq, Eq, Structural)]
pub enum ConversationError {
    /// Nothing in it can be used.
    NoUsableMessages,
    /// It has a system message, which the template does not take.
    SystemRefused,
    /// A message of the user was expected.
    ExpectedUser,
    /// A message of the assistant was expected.
    ExpectedAssistant,
}

impl ConversationError {
    pub open spec fn spec_message(self) -> Seq<char> {
        match self {
            ConversationError::NoUsableMessages => {
                "La conversacion no contiene mensajes utilizables"@
            },
            ConversationError::SystemRefused => "El perfil de template no admite system"@,
            ConversationError::ExpectedUser => "Secuencia de roles invalida: se esperaba user"@,
            ConversationError::ExpectedAssistant => {
                "Secuencia de roles invalida: se esperaba assistant"@
            },
        }
    }

    /// The error in words.
    pub fn message(self) -> (r: &'static str)
        ensures
            r@ == self.spec_message(),
    {
        match self {
            ConversationError::NoUsableMessages => {
                "La conversacion no contiene mensajes utilizables"
            },
            ConversationError::SystemRefused => "El perfil de template no admite system",
            ConversationError::ExpectedUser => "Secuencia de roles invalida: se esperaba user",
            ConversationError::ExpectedAssistant => {
                "Secuencia de roles invalida: se esperaba assistant"
            },
        }
    }
}

proof fn lemma_roles_differ()
    ensures
        "user"@ != "assistant"@,
        "user"@ != "system"@,
        "assistant"@ != "system"@,
        "user"@.len() > 0,
{
    reveal_strlit("user");
    reveal_strlit("assistant");
    reveal_strlit("system");
    assert("user"@.len() != "assistant"@.len());
    assert("user"@.len() != "system"@.len());
    assert("assistant"@.len() != "system"@.len());
}

// ------------------------------------------------------------ order of roles

/// The role that is due at position `i` behind the system message.
pub open spec fn due(i: int) -> Seq<char> {
    if i % 2 == 0 {
        "user"@
    } else {
        "assistant"@
    }
}

/// The conversation begins with a system message.
pub open spec fn has_system(m: Seq<ApiView>) -> bool {
    m.len() > 0 && m[0].role == "system"@
}

/// How many system messages the conversation begins with, at most one.
pub open spec fn head(m: Seq<ApiView>) -> int {
    if has_system(m) {
        1
    } else {
        0
    }
}

/// The first `n` messages behind the system message are in order.
pub open spec fn alternates(m: Seq<ApiView>, n: int) -> bool {
    forall|i: int| head(m) <= i < n ==> (#[trigger] m[i]).role == due(i - head(m))
}

/// What is wrong with the order of the roles, if anything is: a system message
/// that the template does not take, or else the first message out of turn.
pub open spec fn order_error(m: Seq<ApiView>, profile: TemplateProfile, e: ConversationError) -> bool {
    if has_system(m) && profile == TemplateProfile::NoSystem {
        e == ConversationError::SystemRefused
    } else {
        exists|i: int|
            {
                &&& head(m) <= i < m.len()
                &&& alternates(m, i)
                &&& (#[trigger] m[i]).role != due(i - head(m))
                &&& e == if (i - head(m)) % 2 == 0 {
                    ConversationError::ExpectedUser
                } else {
                    ConversationError::ExpectedAssistant
                }
            }
    }
}

/// The template accepts the order of the roles.
pub open spec fn is_valid(m: Seq<ApiView>, profile: TemplateProfile) -> bool {
    !(has_system(m) && profile == TemplateProfile::NoSystem) && alternates(m, m.len() as int)
}

/// Checks that the template accepts the order of the roles.
pub fn validate_sequence(messages: &[ApiMessage], profile: TemplateProfile) -> (r: Result<
    (),
    ConversationError,
>)
    ensures
        r is Ok <==> is_valid(api_views(messages@), profile),
        r matches Err(e) ==> order_error(api_views(messages@), profile, e),
{
    let ghost m = api_views(messages@);
    let mut start: usize = 0;
    if messages.len() > 0 {
        assert(m[0] == messages@[0]@);
        if same(messages[0].role.as_str(), "system") {
            if profile == TemplateProfile::NoSystem {
                return Err(ConversationError::SystemRefused);
            }
            start = 1;
        }
    }
    assert(start == head(m));
    let mut user: bool = true;
    let mut i: usize = start;
    while i < messages.len()
        invariant
            start <= i <= messages.len(),
            m == api_views(messages@),
            start == head(m),
            !(has_system(m) && profile == TemplateProfile::NoSystem),
            user == ((i - start) % 2 == 0),
            alternates(m, i as int),
        decreases messages.len() - i,
    {
        assert(m[i as int] == messages@[i as int]@);
        let expected = if user {
            "user"
        } else {
            "assistant"
        };
        if !same(messages[i].role.as_str(), expected) {
            assert(m[i as int].role != due(i - start));
            return if user {
                Err(ConversationError::ExpectedUser)
            } else {
                Err(ConversationError::ExpectedAssistant)
            };
        }
        user = !user;
        i += 1;
    }
    Ok(())
}

// --------------------------------------------------------------- normal form

/// The texts of the system messages, without blank ones.
pub open spec fn system_texts(m: Seq<ApiView>) -> Seq<Seq<char>>
    decreases m.len(),
{
    if m.len() == 0 {
        seq![]
    } else {
        let before = system_texts(m.drop_last());
        if m.last().role == "system"@ && !is_blank(m.last().content) {
            before.push(trim(m.last().content))
        } else {
            before
        }
    }
}

/// The role takes part in the exchange.
pub open spec fn is_turn_role(role: Seq<char>) -> bool {
    role == "user"@ || role == "assistant"@
}

/// The exchange with one more message: a message of the role that spoke last is
/// added to what it said.
pub open spec fn with_turn(t: Seq<ApiView>, role: Seq<char>, content: Seq<char>) -> Seq<ApiView> {
    if t.len() > 0 && t.last().role == role {
        t.update(
            t.len() - 1,
            ApiView { role: role, content: t.last().content + "\n\n"@ + content },
        )
    } else {
        t.push(ApiView { role: role, content: content })
    }
}

/// The exchange between user and assistant, without blank messages.
pub open spec fn turns(m: Seq<ApiView>) -> Seq<ApiView>
    decreases m.len(),
{
    if m.len() == 0 {
        seq![]
    } else {
        let before = turns(m.drop_last());
        if is_turn_role(m.last().role) && !is_blank(m.last().content) {
            with_turn(before, m.last().role, trim(m.last().content))
        } else {
            before
        }
    }
}

/// The exchange from the first message of the user on.
pub open spec fn from_user(t: Seq<ApiView>) -> Seq<ApiView>
    decreases t.len(),
{
    if t.len() > 0 && t[0].role == "assistant"@ {
        from_user(t.skip(1))
    } else {
        t
    }
}

/// Something in the conversation can be sent.
pub open spec fn is_usable(m: Seq<ApiView>) -> bool {
    from_user(turns(m)).len() > 0 || system_texts(m).len() > 0
}

/// The conversation in the shape that the template accepts.
pub open spec fn normalized(m: Seq<ApiView>, profile: TemplateProfile) -> Seq<ApiView> {
    let t = from_user(turns(m));
    let system = join(system_texts(m), "\n\n"@);
    if system.len() == 0 {
        t
    } else if profile != TemplateProfile::NoSystem {
        seq![ApiView { role: "system"@, content: system }] + t
    } else if t.len() > 0 {
        t.update(0, ApiView { role: t[0].role, content: system + "\n\n"@ + t[0].content })
    } else {
        seq![ApiView { role: "user"@, content: system }]
    }
}

/// User and assistant speak in turn, and nobody else.
pub open spec fn in_turn(t: Seq<ApiView>) -> bool {
    &&& forall|i: int| 0 <= i < t.len() ==> is_turn_role((#[trigger] t[i]).role)
    &&& forall|i: int, j: int|
        0 <= i < t.len() - 1 && j == i + 1 ==> (#[trigger] t[i]).role != (#[trigger] t[j]).role
}

proof fn lemma_turns(m: Seq<ApiView>)
    ensures
        in_turn(turns(m)),
    decreases m.len(),
{
    if m.len() > 0 {
        lemma_turns(m.drop_last());
    }
}

proof fn lemma_from_user(t: Seq<ApiView>)
    requires
        in_turn(t),
    ensures
        in_turn(from_user(t)),
        from_user(t).len() > 0 ==> from_user(t)[0].role == "user"@,
        from_user(t).len() <= t.len(),
    decreases t.len(),
{
    if t.len() > 0 && t[0].role == "assistant"@ {
        let s = t.skip(1);
        assert forall|i: int, j: int| 0 <= i < s.len() - 1 && j == i + 1 implies (
        #[trigger] s[i]).role != (#[trigger] s[j]).role by {
            assert(t[i + 1].role != t[j + 1].role);
        }
        lemma_from_user(s);
    }
}

proof fn lemma_user_first(t: Seq<ApiView>, n: int)
    requires
        in_turn(t),
        t.len() > 0 ==> t[0].role == "user"@,
        0 <= n < t.len(),
    ensures
        t[n].role == due(n),
    decreases n,
{
    lemma_roles_differ();
    if n > 0 {
        lemma_user_first(t, n - 1);
        assert(t[n - 1].role != t[n].role);
    }
}

/// Normalizing always gives an order of roles that the template accepts.
pub proof fn law_normalized_is_valid(m: Seq<ApiView>, profile: TemplateProfile)
    ensures
        is_valid(normalized(m, profile), profile),
{
    let t = from_user(turns(m));
    let r = normalized(m, profile);
    lemma_roles_differ();
    lemma_turns(m);
    lemma_from_user(turns(m));
    assert forall|n: int| 0 <= n < t.len() implies (#[trigger] t[n]).role == due(n) by {
        lemma_user_first(t, n);
    }
    if t.len() > 0 {
        assert(t[0].role == due(0));
    }
    assert forall|i: int| head(r) <= i < r.len() implies (#[trigger] r[i]).role == due(
        i - head(r),
    ) by {
        if has_system(r) && r != t {
            assert(r[i] == t[i - 1]);
        } else if r.len() == t.len() {
            assert(r[i].role == t[i].role);
        }
    }
}

/// For a template without system messages, normalizing leaves none.
pub proof fn law_fallback_has_no_system(m: Seq<ApiView>)
    ensures
        forall|i: int|
            0 <= i < normalized(m, TemplateProfile::NoSystem).len() ==> is_turn_role(
                (#[trigger] normalized(m, TemplateProfile::NoSystem)[i]).role,
            ),
{
    let t = from_user(turns(m));
    lemma_turns(m);
    lemma_from_user(turns(m));
    let r = normalized(m, TemplateProfile::NoSystem);
    assert forall|i: int| 0 <= i < r.len() implies is_turn_role((#[trigger] r[i]).role) by {
        if r.len() == t.len() && t.len() > 0 {
            assert(is_turn_role(t[i].role));
        }
    }
}

// ------------------------------------------------------------- nothing is lost

/// The message says something in a role.
pub open spec fn says(m: ApiView, role: Seq<char>) -> bool {
    m.role == role && !is_blank(m.content)
}

/// What the user and the assistant say, in their order.
pub open spec fn things_said(m: Seq<ApiView>) -> Seq<Seq<char>> {
    m.filter(|x: ApiView| says(x, "user"@) || says(x, "assistant"@)).map_values(
        |x: ApiView| trim(x.content),
    )
}

/// What the instructions say, in their order.
pub open spec fn things_instructed(m: Seq<ApiView>) -> Seq<Seq<char>> {
    m.filter(|x: ApiView| says(x, "system"@)).map_values(|x: ApiView| trim(x.content))
}

/// The contents of messages.
pub open spec fn contents_of(m: Seq<ApiView>) -> Seq<Seq<char>> {
    m.map_values(|x: ApiView| x.content)
}

/// The user says something for the first time at `k`, or nowhere.
pub open spec fn user_begins_at(m: Seq<ApiView>, k: int) -> bool {
    &&& 0 <= k <= m.len()
    &&& forall|i: int| 0 <= i < k ==> !says(#[trigger] m[i], "user"@)
    &&& k < m.len() ==> says(m[k], "user"@)
}

proof fn lemma_said_push(m: Seq<ApiView>)
    requires
        m.len() > 0,
    ensures
        things_said(m) == if says(m.last(), "user"@) || says(m.last(), "assistant"@) {
            things_said(m.drop_last()).push(trim(m.last().content))
        } else {
            things_said(m.drop_last())
        },
        things_instructed(m) == if says(m.last(), "system"@) {
            things_instructed(m.drop_last()).push(trim(m.last().content))
        } else {
            things_instructed(m.drop_last())
        },
{
    reveal_with_fuel(Seq::filter, 2);
    let p = m.drop_last();
    let said = |x: ApiView| says(x, "user"@) || says(x, "assistant"@);
    let told = |x: ApiView| says(x, "system"@);
    let text = |x: ApiView| trim(x.content);
    if said(m.last()) {
        assert(m.filter(said) =~= p.filter(said).push(m.last()));
        assert(m.filter(said).map_values(text) =~= p.filter(said).map_values(text).push(
            trim(m.last().content),
        ));
    } else {
        assert(m.filter(said) =~= p.filter(said));
    }
    if told(m.last()) {
        assert(m.filter(told) =~= p.filter(told).push(m.last()));
        assert(m.filter(told).map_values(text) =~= p.filter(told).map_values(text).push(
            trim(m.last().content),
        ));
    } else {
        assert(m.filter(told) =~= p.filter(told));
    }
}

proof fn lemma_instructed(m: Seq<ApiView>)
    ensures
        system_texts(m) == things_instructed(m),
        forall|i: int|
            0 <= i < things_instructed(m).len() ==> (#[trigger] things_instructed(m)[i]).len() > 0,
    decreases m.len(),
{
    if m.len() == 0 {
        assert(system_texts(m) =~= things_instructed(m));
    } else {
        lemma_instructed(m.drop_last());
        lemma_said_push(m);
        crate::text::law_trim(m.last().content);
    }
}

proof fn lemma_with_turn_text(t: Seq<ApiView>, role: Seq<char>, content: Seq<char>)
    ensures
        with_turn(t, role, content).len() > 0,
        with_turn(t, role, content).last().role == role,
        content.is_suffix_of(with_turn(t, role, content).last().content),
        join(contents_of(with_turn(t, role, content)), "\n\n"@) == if t.len() == 0 {
            content
        } else {
            join(contents_of(t), "\n\n"@) + "\n\n"@ + content
        },
        forall|j: int|
            0 <= j < t.len() ==> with_turn(t, role, content)[j].role == (#[trigger] t[j]).role
                && contains(with_turn(t, role, content)[j].content, t[j].content),
{
    let w = with_turn(t, role, content);
    let sep = "\n\n"@;
    let c = w.last().content;
    assert(content =~= c.subrange(c.len() - content.len(), c.len() as int));
    assert forall|j: int| 0 <= j < t.len() implies w[j].role == (#[trigger] t[j]).role && contains(
        w[j].content,
        t[j].content,
    ) by {
        let none = Seq::<char>::empty();
        lemma_contains_between(none, t[j].content, none);
        assert(none + t[j].content + none =~= t[j].content);
        if w[j] != t[j] {
            lemma_contains_between(none, t[j].content, sep + content);
            assert(none + t[j].content + (sep + content) =~= w[j].content);
        }
    }
    if t.len() == 0 {
        assert(contents_of(w) =~= seq![content]);
    } else if t.last().role == role {
        let before = contents_of(t).drop_last();
        assert(contents_of(w) =~= before.push(t.last().content + sep + content));
        assert(contents_of(t) =~= before.push(t.last().content));
        assert(contents_of(w).drop_last() =~= before);
        if before.len() > 0 {
            assert(join(contents_of(w), sep) =~= join(contents_of(t), sep) + sep + content);
        }
    } else {
        assert(contents_of(w) =~= contents_of(t).push(content));
        assert(contents_of(w).drop_last() =~= contents_of(t));
    }
}

/// The message stands in one of the same role.
pub open spec fn is_kept_in(r: Seq<ApiView>, role: Seq<char>, text: Seq<char>) -> bool {
    exists|j: int|
        0 <= j < r.len() && (#[trigger] r[j]).role == role && contains(r[j].content, text)
}

proof fn lemma_turns_text(m: Seq<ApiView>)
    ensures
        join(contents_of(turns(m)), "\n\n"@) == join(things_said(m), "\n\n"@),
        turns(m).len() == 0 <==> things_said(m).len() == 0,
        forall|i: int|
            0 <= i < m.len() && (says(#[trigger] m[i], "user"@) || says(m[i], "assistant"@))
                ==> is_kept_in(turns(m), m[i].role, trim(m[i].content)),
    decreases m.len(),
{
    let sep = "\n\n"@;
    let t = turns(m);
    if m.len() == 0 {
        assert(contents_of(t) =~= things_said(m));
    } else {
        let p = m.drop_last();
        let last = m.last();
        let before = turns(p);
        lemma_turns_text(p);
        lemma_said_push(m);
        if says(last, "user"@) || says(last, "assistant"@) {
            lemma_with_turn_text(before, last.role, trim(last.content));
            assert(things_said(m).drop_last() =~= things_said(p));
            assert(join(contents_of(t), sep) =~= join(things_said(m), sep));
        }
        assert forall|i: int|
            0 <= i < m.len() && (says(#[trigger] m[i], "user"@) || says(
                m[i],
                "assistant"@,
            )) implies is_kept_in(t, m[i].role, trim(m[i].content)) by {
            let text = trim(m[i].content);
            if i < p.len() {
                assert(p[i] == m[i]);
                let j = choose|j: int|
                    0 <= j < before.len() && (#[trigger] before[j]).role == m[i].role && contains(
                        before[j].content,
                        text,
                    );
                if t != before {
                    lemma_contains_chain(t[j].content, before[j].content, text);
                }
                assert(t[j].role == m[i].role && contains(t[j].content, text));
            } else {
                let c = t.last().content;
                lemma_contains_between(c.take(c.len() - text.len()), text, seq![]);
                assert(c.take(c.len() - text.len()) + text + seq![] =~= c) by {
                    assert(text =~= c.subrange(c.len() - text.len(), c.len() as int));
                }
                assert(t[t.len() - 1].role == m[i].role);
            }
        }
    }
}

proof fn lemma_no_user(m: Seq<ApiView>)
    requires
        user_begins_at(m, m.len() as int),
    ensures
        turns(m).len() <= 1,
        turns(m).len() == 1 ==> turns(m)[0].role == "assistant"@,
    decreases m.len(),
{
    if m.len() > 0 {
        let p = m.drop_last();
        assert forall|i: int| 0 <= i < p.len() implies !says(#[trigger] p[i], "user"@) by {
            assert(p[i] == m[i]);
        }
        lemma_no_user(p);
        assert(!says(m[m.len() - 1], "user"@));
    }
}

proof fn lemma_from_user_with_turn(t: Seq<ApiView>, role: Seq<char>, content: Seq<char>)
    requires
        from_user(t).len() > 0,
    ensures
        from_user(with_turn(t, role, content)) == with_turn(from_user(t), role, content),
    decreases t.len(),
{
    if t.len() > 0 && t[0].role == "assistant"@ {
        let s = t.skip(1);
        lemma_from_user_with_turn(s, role, content);
        assert(s.len() > 0);
        assert(s.last() == t.last());
        let w = with_turn(t, role, content);
        assert(w.skip(1) =~= with_turn(s, role, content));
        assert(w[0].role == "assistant"@);
    }
}

proof fn lemma_from_first_user(m: Seq<ApiView>, k: int)
    requires
        user_begins_at(m, k),
    ensures
        from_user(turns(m)) == turns(m.skip(k)),
    decreases m.len(),
{
    lemma_roles_differ();
    if k == m.len() {
        lemma_no_user(m);
        assert(m.skip(k) =~= Seq::<ApiView>::empty());
        let t = turns(m);
        if t.len() == 1 {
            assert(t.skip(1) =~= Seq::<ApiView>::empty());
            assert(from_user(t) == from_user(t.skip(1)));
        }
        assert(from_user(t) =~= turns(m.skip(k)));
    } else {
        let p = m.drop_last();
        let x = m.last();
        assert(m.skip(k).last() == x);
        assert(m.skip(k).drop_last() =~= p.skip(k));
        if k < p.len() {
            assert(p[k] == m[k]);
            assert forall|i: int| 0 <= i < k implies !says(#[trigger] p[i], "user"@) by {
                assert(p[i] == m[i]);
            }
            lemma_from_first_user(p, k);
            if says(x, "user"@) || says(x, "assistant"@) {
                lemma_turns_text(p.skip(k));
                assert(says(p.skip(k)[0], "user"@));
                assert(is_kept_in(turns(p.skip(k)), "user"@, trim(p.skip(k)[0].content)));
                lemma_from_user_with_turn(turns(p), x.role, trim(x.content));
            }
        } else {
            assert(says(m[k], "user"@));
            assert forall|i: int| 0 <= i < p.len() implies !says(#[trigger] p[i], "user"@) by {
                assert(p[i] == m[i]);
            }
            lemma_no_user(p);
            let t = turns(m);
            let one = ApiView { role: "user"@, content: trim(x.content) };
            assert(p.skip(k) =~= Seq::<ApiView>::empty());
            let none = Seq::<ApiView>::empty();
            assert(m.skip(k).drop_last() =~= none);
            assert(turns(none) =~= none);
            assert(turns(m.skip(k)) == with_turn(turns(m.skip(k).drop_last()), x.role, one.content));
            assert(turns(m.skip(k)) =~= seq![one]);
            if turns(p).len() == 1 {
                assert(t =~= seq![turns(p)[0], one]);
                assert(t.skip(1) =~= seq![one]);
                assert(from_user(t) == from_user(t.skip(1)));
            } else {
                assert(t =~= seq![one]);
            }
        }
    }
}

/// Whatever the template takes, a conversation is sent with all that is said in it: what
/// the instructions say, then what the user and the assistant say from the first word of
/// the user on, in that order and with nothing added but blank lines between.
pub proof fn law_nothing_said_is_lost(m: Seq<ApiView>, profile: TemplateProfile, k: int)
    requires
        user_begins_at(m, k),
    ensures
        join(contents_of(normalized(m, profile)), "\n\n"@) == join(
            things_instructed(m) + things_said(m.skip(k)),
            "\n\n"@,
        ),
{
    let sep = "\n\n"@;
    let r = normalized(m, profile);
    let t = from_user(turns(m));
    let told = things_instructed(m);
    let said = things_said(m.skip(k));
    let system = join(system_texts(m), sep);
    lemma_from_first_user(m, k);
    lemma_turns_text(m.skip(k));
    lemma_instructed(m);
    assert(contents_of(t).len() == t.len());
    if told.len() == 0 {
        assert(told + said =~= said);
    } else {
        lemma_join_contains(told, sep, 0);
        assert(told[0].len() > 0);
        assert(system.len() > 0);
        if said.len() == 0 {
            assert(told + said =~= told);
            assert(contents_of(r) =~= seq![system]);
        } else {
            lemma_join_add(told, said, sep);
            if profile != TemplateProfile::NoSystem {
                assert(contents_of(r) =~= seq![system] + contents_of(t));
                lemma_join_front(system, contents_of(t), sep);
            } else {
                let first = t[0].content;
                let rest = contents_of(t).skip(1);
                assert(contents_of(t) =~= seq![first] + rest);
                assert(contents_of(r) =~= seq![system + sep + first] + rest);
                if rest.len() > 0 {
                    lemma_join_front(first, rest, sep);
                    lemma_join_front(system + sep + first, rest, sep);
                    assert(join(contents_of(r), sep) =~= system + sep + join(
                        contents_of(t),
                        sep,
                    ));
                } else {
                    assert(contents_of(t) =~= seq![first]);
                    assert(contents_of(r) =~= seq![system + sep + first]);
                }
            }
        }
    }
}

/// Whatever the template takes, each role is sent what it said: every text of the user
/// stands in a message of the user, every text of the assistant after the first word of the
/// user in a message of the assistant, and every instruction in a system message or, where
/// the template takes none, in the first message of the user.
pub proof fn law_everyone_is_quoted(m: Seq<ApiView>, profile: TemplateProfile, k: int)
    requires
        user_begins_at(m, k),
    ensures
        forall|i: int|
            0 <= i < m.len() && says(#[trigger] m[i], "user"@) ==> is_kept_in(
                normalized(m, profile),
                "user"@,
                trim(m[i].content),
            ),
        forall|i: int|
            k <= i < m.len() && says(#[trigger] m[i], "assistant"@) ==> is_kept_in(
                normalized(m, profile),
                "assistant"@,
                trim(m[i].content),
            ),
        forall|i: int|
            0 <= i < m.len() && says(#[trigger] m[i], "system"@) ==> contains(
                normalized(m, profile)[0].content,
                trim(m[i].content),
            ) && normalized(m, profile)[0].role == if profile == TemplateProfile::NoSystem {
                "user"@
            } else {
                "system"@
            },
{
    let sep = "\n\n"@;
    let r = normalized(m, profile);
    let t = from_user(turns(m));
    let system = join(system_texts(m), sep);
    let later = m.skip(k);
    lemma_roles_differ();
    lemma_from_first_user(m, k);
    lemma_turns_text(later);
    lemma_turns(m);
    lemma_from_user(turns(m));
    lemma_instructed(m);
    assert forall|role: Seq<char>, text: Seq<char>| #[trigger]
        is_kept_in(t, role, text) implies is_kept_in(r, role, text) by {
        let j = choose|j: int|
            0 <= j < t.len() && (#[trigger] t[j]).role == role && contains(t[j].content, text);
        if system.len() == 0 {
            assert(r[j].role == role && contains(r[j].content, text));
        } else if profile != TemplateProfile::NoSystem {
            assert(r[j + 1] == t[j]);
            assert(r[j + 1].role == role && contains(r[j + 1].content, text));
        } else {
            lemma_contains_add(system + sep, t[j].content, text);
            assert(r[j].role == role && contains(r[j].content, text));
        }
    }
    assert forall|i: int|
        0 <= i < m.len() && says(#[trigger] m[i], "user"@) implies is_kept_in(
        r,
        "user"@,
        trim(m[i].content),
    ) by {
        assert(later[i - k] == m[i]);
        assert(is_kept_in(t, "user"@, trim(m[i].content)));
    }
    assert forall|i: int|
        k <= i < m.len() && says(#[trigger] m[i], "assistant"@) implies is_kept_in(
        r,
        "assistant"@,
        trim(m[i].content),
    ) by {
        assert(later[i - k] == m[i]);
        assert(is_kept_in(t, "assistant"@, trim(m[i].content)));
    }
    assert forall|i: int| 0 <= i < m.len() && says(#[trigger] m[i], "system"@) implies contains(
        r[0].content,
        trim(m[i].content),
    ) && r[0].role == if profile == TemplateProfile::NoSystem {
        "user"@
    } else {
        "system"@
    } by {
        let text = trim(m[i].content);
        lemma_instruction_is_kept(m, i);
        lemma_contains_nonempty(system, text);
        crate::text::law_trim(m[i].content);
        assert(text.len() > 0);
        if profile == TemplateProfile::NoSystem && t.len() > 0 {
            lemma_contains_add(system, sep + t[0].content, text);
            assert(system + (sep + t[0].content) =~= r[0].content);
        }
    }
}

proof fn lemma_contains_nonempty(s: Seq<char>, p: Seq<char>)
    requires
        contains(s, p),
    ensures
        p.len() <= s.len(),
{
}

proof fn lemma_instruction_is_kept(m: Seq<ApiView>, i: int)
    requires
        0 <= i < m.len(),
        says(m[i], "system"@),
    ensures
        contains(join(system_texts(m), "\n\n"@), trim(m[i].content)),
{
    let told = |x: ApiView| says(x, "system"@);
    lemma_instructed(m);
    m.lemma_filter_contains(told, i);
    let kept = m.filter(told);
    let j = choose|j: int| 0 <= j < kept.len() && kept[j] == m[i];
    assert(things_instructed(m)[j] == trim(m[i].content));
    lemma_join_contains(things_instructed(m), "\n\n"@, j);
}

/// Whatever the template takes, a conversation that ends with a question of the user is
/// sent with a last message of the user that ends with it.
pub proof fn law_question_comes_last(m: Seq<ApiView>, profile: TemplateProfile)
    requires
        m.len() > 0,
        says(m.last(), "user"@),
    ensures
        normalized(m, profile).len() > 0,
        normalized(m, profile).last().role == "user"@,
        trim(m.last().content).is_suffix_of(normalized(m, profile).last().content),
{
    let sep = "\n\n"@;
    let asked = trim(m.last().content);
    let t = turns(m);
    lemma_with_turn_text(turns(m.drop_last()), "user"@, asked);
    lemma_from_user_keeps_last(t);
    let f = from_user(t);
    let r = normalized(m, profile);
    let system = join(system_texts(m), sep);
    if system.len() > 0 && profile == TemplateProfile::NoSystem && f.len() == 1 {
        let c = r.last().content;
        let own = f.last().content;
        assert(c =~= system + sep + own);
        assert(asked =~= own.subrange(own.len() - asked.len(), own.len() as int));
        assert(asked =~= c.subrange(c.len() - asked.len(), c.len() as int));
    } else {
        assert(r.last() == f.last());
    }
}

/// A conversation can be sent exactly where an instruction or the user says something.
pub proof fn law_what_can_be_sent(m: Seq<ApiView>, k: int)
    requires
        user_begins_at(m, k),
    ensures
        is_usable(m) <==> k < m.len() || exists|i: int|
            0 <= i < m.len() && says(#[trigger] m[i], "system"@),
{
    lemma_from_first_user(m, k);
    lemma_turns_text(m.skip(k));
    lemma_instructed(m);
    let told = |x: ApiView| says(x, "system"@);
    let kept = m.filter(told);
    if k < m.len() {
        assert(m.skip(k)[0] == m[k]);
        assert(is_kept_in(turns(m.skip(k)), m[k].role, trim(m[k].content)));
    } else {
        assert(m.skip(k) =~= Seq::<ApiView>::empty());
    }
    if kept.len() > 0 {
        m.lemma_filter_pred(told, 0);
        m.lemma_filter_contains_rev(told, kept[0]);
        let i = choose|i: int| 0 <= i < m.len() && m[i] == kept[0];
        assert(says(m[i], "system"@));
    }
    if exists|i: int| 0 <= i < m.len() && says(#[trigger] m[i], "system"@) {
        let i = choose|i: int| 0 <= i < m.len() && says(#[trigger] m[i], "system"@);
        m.lemma_filter_contains(told, i);
    }
    assert(things_instructed(m).len() == kept.len());
}

fn add_turn(t: &mut Vec<ApiMessage>, role: &str, content: String)
    ensures
        api_views(final(t)@) == with_turn(api_views(old(t)@), role@, content@),
{
    let ghost before = api_views(t@);
    assert(before.len() == t@.len());
    if t.len() > 0 {
        let last = t.len() - 1;
        assert(before.last() == t@[last as int]@);
        if same(t[last].role.as_str(), role) {
            let mut text = t[last].content.clone();
            text.append("\n\n");
            text.append(content.as_str());
            let message = ApiMessage { role: role.to_owned(), content: text };
            t[last] = message;
            assert(api_views(t@) =~= before.update(last as int, message@));
            return ;
        }
    }
    let message = ApiMessage { role: role.to_owned(), content };
    t.push(message);
    assert(api_views(t@) =~= before.push(message@));
}

/// The conversation in the shape that the template accepts.
pub fn normalize_chat_messages(messages: &[ApiMessage], profile: TemplateProfile) -> (r: Result<
    Vec<ApiMessage>,
    ConversationError,
>)
    ensures
        match r {
            Ok(v) => is_usable(api_views(messages@)) && api_views(v@) == normalized(
                api_views(messages@),
                profile,
            ),
            Err(e) => e == ConversationError::NoUsableMessages && !is_usable(api_views(messages@)),
        },
{
    let ghost m = api_views(messages@);
    let mut system: Vec<String> = Vec::new();
    let mut t: Vec<ApiMessage> = Vec::new();
    let mut i: usize = 0;
    proof {
        lemma_roles_differ();
    }
    assert(views(system@) =~= system_texts(m.take(0)));
    assert(api_views(t@) =~= turns(m.take(0)));
    while i < messages.len()
        invariant
            i <= messages.len(),
            m == api_views(messages@),
            "user"@ != "system"@,
            "assistant"@ != "system"@,
            views(system@) == system_texts(m.take(i as int)),
            api_views(t@) == turns(m.take(i as int)),
        decreases messages.len() - i,
    {
        assert(m.take(i + 1).drop_last() =~= m.take(i as int));
        assert(m.take(i + 1).last() == messages@[i as int]@);
        let content = trimmed(messages[i].content.as_str());
        if !content.as_str().is_empty() {
            let role = messages[i].role.as_str();
            if same(role, "system") {
                let ghost before = views(system@);
                system.push(content);
                assert(views(system@) =~= before.push(content@));
            } else if same(role, "user") || same(role, "assistant") {
                add_turn(&mut t, role, content);
            }
        }
        i += 1;
    }
    assert(m.take(i as int) =~= m);
    let ghost all = turns(m);
    while t.len() > 0 && same(t[0].role.as_str(), "assistant")
        invariant
            all == turns(m),
            from_user(all) == from_user(api_views(t@)),
        decreases t.len(),
    {
        let ghost before = api_views(t@);
        t.remove(0);
        assert(api_views(t@) =~= before.skip(1));
    }
    let ghost exchange = api_views(t@);
    assert(exchange.len() == t@.len());
    assert(t@.len() > 0 ==> exchange[0] == t@[0]@);
    assert(exchange == from_user(all));
    assert(views(system@).len() == system@.len());
    if t.len() == 0 && system.len() == 0 {
        return Err(ConversationError::NoUsableMessages);
    }
    let combined = joined(&system, "\n\n");
    let mut output: Vec<ApiMessage> = Vec::new();
    if !combined.as_str().is_empty() {
        if profile != TemplateProfile::NoSystem {
            output.push(ApiMessage { role: "system".to_owned(), content: combined });
        } else if t.len() > 0 {
            let mut text = combined;
            text.append("\n\n");
            text.append(t[0].content.as_str());
            let message = ApiMessage { role: t[0].role.clone(), content: text };
            t[0] = message;
            assert(api_views(t@) =~= exchange.update(0, message@));
        } else {
            let message = ApiMessage { role: "user".to_owned(), content: combined };
            t.push(message);
            assert(api_views(t@) =~= seq![message@]);
        }
    }
    let ghost front = api_views(output@);
    let ghost back = api_views(t@);
    output.append(&mut t);
    proof {
        assert(api_views(output@) =~= front + back);
        assert(front.len() == 0 ==> front + back =~= back);
        assert(api_views(output@) =~= normalized(m, profile));
        law_normalized_is_valid(m, profile);
    }
    match validate_sequence(&output, profile) {
        Ok(()) => Ok(output),
        Err(e) => Err(e),
    }
}

/// The conversation in the shape that the template accepts, and in the shape
/// without a system message to fall back on.
pub fn prepare(messages: &[ApiMessage], profile: TemplateProfile) -> (r: Result<
    PreparedConversation,
    ConversationError,
>)
    ensures
        match r {
            Ok(p) => {
                &&& is_usable(api_views(messages@))
                &&& p.profile == profile
                &&& api_views(p.messages@) == normalized(api_views(messages@), profile)
                &&& api_views(p.fallback_without_system@) == normalized(
                    api_views(messages@),
                    TemplateProfile::NoSystem,
                )
            },
            Err(e) => e == ConversationError::NoUsableMessages && !is_usable(api_views(messages@)),
        },
{
    let messages_for_profile = match normalize_chat_messages(messages, profile) {
        Ok(v) => v,
        Err(e) => {
            return Err(e);
        },
    };
    let fallback = match normalize_chat_messages(messages, TemplateProfile::NoSystem) {
        Ok(v) => v,
        Err(e) => {
            return Err(e);
        },
    };
    Ok(
        PreparedConversation {
            messages: messages_for_profile,
            fallback_without_system: fallback,
            profile,
        },
    )
}

// ------------------------------------------------------------------- history

/// The number of bytes that a conversation may take: four for each token that is
/// not reserved for the answer, and never less than for 256 tokens.
pub open spec fn byte_budget(context_size: nat, max_tokens: nat) -> int {
    let free = if context_size < max_tokens + 256 {
        256
    } else {
        context_size - max_tokens
    };
    free * 4
}

/// The message of the history can be sent.
pub open spec fn can_be_sent(m: MessageView) -> bool {
    is_turn_role(m.role) && !is_blank(m.content)
}

/// The latest messages of a history that fit in the room that is left, in their
/// order; nothing is taken from before the first that does not fit.
pub open spec fn latest(history: Seq<MessageView>, room: int) -> Seq<ApiView>
    decreases history.len(),
{
    if history.len() == 0 {
        seq![]
    } else {
        let last = history.last();
        if !can_be_sent(last) {
            latest(history.drop_last(), room)
        } else if byte_len(last.content) > room {
            seq![]
        } else {
            latest(history.drop_last(), room - byte_len(last.content)).push(
                ApiView { role: last.role, content: last.content },
            )
        }
    }
}

/// What is sent for a question: the instruction, what fits of the history, and
/// the question.
pub open spec fn assembled(
    system: Seq<char>,
    history: Seq<MessageView>,
    question: Seq<char>,
    budget: int,
) -> Seq<ApiView> {
    let asked = trim(question);
    let front = if is_blank(system) {
        seq![]
    } else {
        seq![ApiView { role: "system"@, content: system }]
    };
    let back = if asked.len() == 0 {
        seq![]
    } else {
        seq![ApiView { role: "user"@, content: asked }]
    };
    front + latest(history, budget - byte_len(system) - byte_len(asked)) + back
}

/// The conversation to send for a question, in the shape that templates accept;
/// empty where nothing can be sent.
pub open spec fn fitted(
    system: Seq<char>,
    history: Seq<MessageView>,
    question: Seq<char>,
    context_size: nat,
    max_tokens: nat,
) -> Seq<ApiView> {
    let input = assembled(system, history, question, byte_budget(context_size, max_tokens));
    if is_usable(input) {
        normalized(input, TemplateProfile::SystemSupported)
    } else {
        seq![]
    }
}

/// The conversation to send for a question: the latest part of the history that
/// fits beside the instruction and the question, in the shape that templates
/// accept; empty where nothing can be sent.
pub fn trim_history(
    system: String,
    history: &[Message],
    question: &str,
    context_size: usize,
    max_tokens: usize,
) -> (r: Vec<ApiMessage>)
    ensures
        api_views(r@) == fitted(
            system@,
            message_views(history@),
            question@,
            context_size as nat,
            max_tokens as nat,
        ),
{
    let free: u128 = if (context_size as u128) < max_tokens as u128 + 256 {
        256
    } else {
        context_size as u128 - max_tokens as u128
    };
    let budget: i128 = free as i128 * 4;
    let asked = trimmed(question);
    let ghost all = message_views(history@);
    let room: i128 = budget - bytes_of(system.as_str()) as i128 - bytes_of(asked.as_str()) as i128;
    let selected = select_latest(history, room);
    let ghost kept = api_views(selected@);
    let mut input: Vec<ApiMessage> = Vec::new();
    let ghost system_text = system@;
    if !blank(system.as_str()) {
        input.push(ApiMessage { role: "system".to_owned(), content: system });
    }
    let ghost front = api_views(input@);
    assert(front =~= if is_blank(system_text) {
        seq![]
    } else {
        seq![ApiView { role: "system"@, content: system_text }]
    });
    let mut rest = selected;
    input.append(&mut rest);
    assert(api_views(input@) =~= front + kept);
    if !asked.as_str().is_empty() {
        let ghost before = api_views(input@);
        let message = ApiMessage { role: "user".to_owned(), content: asked };
        input.push(message);
        assert(api_views(input@) =~= before + seq![message@]);
    } else {
        assert(front + kept + Seq::<ApiView>::empty() =~= front + kept);
    }
    assert(api_views(input@) =~= assembled(
        system_text,
        all,
        question@,
        byte_budget(context_size as nat, max_tokens as nat),
    ));
    match normalize_chat_messages(&input, TemplateProfile::SystemSupported) {
        Ok(v) => v,
        Err(_) => {
            let none: Vec<ApiMessage> = Vec::new();
            assert(api_views(none@) =~= seq![]);
            none
        },
    }
}

proof fn lemma_from_user_keeps_last(t: Seq<ApiView>)
    requires
        t.len() > 0,
        t.last().role == "user"@,
    ensures
        from_user(t).len() > 0,
        from_user(t).last() == t.last(),
    decreases t.len(),
{
    lemma_roles_differ();
    if t[0].role == "assistant"@ {
        assert(t.skip(1).last() == t.last());
        lemma_from_user_keeps_last(t.skip(1));
    }
}

/// However much of the history has to go, the question stays: the conversation
/// ends with a message of the user that ends with it.
pub proof fn law_question_is_kept(
    system: Seq<char>,
    history: Seq<MessageView>,
    question: Seq<char>,
    budget: int,
)
    requires
        !is_blank(question),
    ensures
        ({
            let input = assembled(system, history, question, budget);
            let r = normalized(input, TemplateProfile::SystemSupported);
            &&& is_usable(input)
            &&& r.len() > 0
            &&& r.last().role == "user"@
            &&& trim(question).is_suffix_of(r.last().content)
        }),
{
    let input = assembled(system, history, question, budget);
    let asked = trim(question);
    crate::text::law_trim(question);
    assert(input.last() == (ApiView { role: "user"@, content: asked }));
    let before = turns(input.drop_last());
    let t = turns(input);
    assert(t == with_turn(before, "user"@, asked));
    assert(t.last().role == "user"@);
    assert(asked.is_suffix_of(t.last().content)) by {
        let c = t.last().content;
        assert(asked =~= c.subrange(c.len() - asked.len(), c.len() as int));
    }
    lemma_from_user_keeps_last(t);
    let r = normalized(input, TemplateProfile::SystemSupported);
    assert(r.last() == from_user(t).last());
}

/// The messages of a history that can be sent, in their order.
pub open spec fn sendable(history: Seq<MessageView>) -> Seq<ApiView> {
    history.filter(
        |m: MessageView| (m.role == "user"@ || m.role == "assistant"@) && !is_blank(m.content),
    ).map_values(|m: MessageView| ApiView { role: m.role, content: m.content })
}

/// The bytes of messages added up.
pub open spec fn bytes_of_messages(m: Seq<ApiView>) -> int
    decreases m.len(),
{
    if m.len() == 0 {
        0
    } else {
        bytes_of_messages(m.skip(1)) + byte_len(m[0].content)
    }
}

proof fn lemma_bytes_push(m: Seq<ApiView>, x: ApiView)
    ensures
        bytes_of_messages(m.push(x)) == bytes_of_messages(m) + byte_len(x.content),
    decreases m.len(),
{
    let all = m.push(x);
    if m.len() == 0 {
        assert(all.skip(1) =~= Seq::<ApiView>::empty());
        assert(bytes_of_messages(all.skip(1)) == 0);
    } else {
        assert(all.skip(1) =~= m.skip(1).push(x));
        lemma_bytes_push(m.skip(1), x);
    }
}

proof fn lemma_latest(history: Seq<MessageView>, room: int) -> (n: int)
    ensures
        0 <= n <= sendable(history).len(),
        latest(history, room) == sendable(history).skip(n),
        n < sendable(history).len() ==> bytes_of_messages(sendable(history).skip(n)) <= room,
        n > 0 ==> bytes_of_messages(sendable(history).skip(n - 1)) > room,
    decreases history.len(),
{
    let keep = |m: MessageView|
        (m.role == "user"@ || m.role == "assistant"@) && !is_blank(m.content);
    let show = |m: MessageView| ApiView { role: m.role, content: m.content };
    let v = sendable(history);
    reveal_with_fuel(Seq::filter, 2);
    if history.len() == 0 {
        assert(latest(history, room) =~= v.skip(0));
        0
    } else {
        let p = history.drop_last();
        let last = history.last();
        let w = sendable(p);
        if !can_be_sent(last) {
            assert(v =~= w);
            lemma_latest(p, room)
        } else {
            let x = ApiView { role: last.role, content: last.content };
            assert(history.filter(keep) =~= p.filter(keep).push(last));
            assert(v =~= w.push(x));
            let size = byte_len(last.content);
            if size > room {
                let n = v.len() as int;
                assert(v.skip(n) =~= Seq::<ApiView>::empty());
                let none = Seq::<ApiView>::empty();
                assert(v.skip(n - 1) =~= none.push(x));
                lemma_bytes_push(none, x);
                n
            } else {
                let n = lemma_latest(p, room - size);
                assert(v.skip(n) =~= w.skip(n).push(x));
                lemma_bytes_push(w.skip(n), x);
                if n == w.len() {
                    assert(w.skip(n) =~= Seq::<ApiView>::empty());
                }
                if n > 0 {
                    assert(v.skip(n - 1) =~= w.skip(n - 1).push(x));
                    lemma_bytes_push(w.skip(n - 1), x);
                }
                n
            }
        }
    }
}

/// What is sent for a question: the instruction if it says something, then the end of
/// what can be sent of the history, then the question if it says something. The part of the
/// history fits beside the other two in the bytes that are free, and one message more would
/// not fit.
pub proof fn law_latest_history_is_sent(
    system: Seq<char>,
    history: Seq<MessageView>,
    question: Seq<char>,
    budget: int,
)
    ensures
        exists|n: int|
            #![trigger sendable(history).skip(n)]
            {
                let kept = sendable(history).skip(n);
                let room = budget - byte_len(system) - byte_len(trim(question));
                &&& 0 <= n <= sendable(history).len()
                &&& kept.len() > 0 ==> bytes_of_messages(kept) <= room
                &&& n > 0 ==> bytes_of_messages(sendable(history).skip(n - 1)) > room
                &&& assembled(system, history, question, budget) == (if is_blank(system) {
                    seq![]
                } else {
                    seq![ApiView { role: "system"@, content: system }]
                }) + kept + (if is_blank(question) {
                    seq![]
                } else {
                    seq![ApiView { role: "user"@, content: trim(question) }]
                })
            },
{
    let room = budget - byte_len(system) - byte_len(trim(question));
    let n = lemma_latest(history, room);
    let kept = sendable(history).skip(n);
    assert(latest(history, room) == kept);
}

/// A conversation may take four bytes for each token of the context that the answer
/// leaves free, and never less than for 256.
pub proof fn law_budget(context_size: nat, max_tokens: nat)
    ensures
        byte_budget(context_size, max_tokens) >= 1024,
        byte_budget(context_size, max_tokens) >= 4 * (context_size - max_tokens),
        byte_budget(context_size, max_tokens) == 1024 || byte_budget(context_size, max_tokens) == 4
            * (context_size - max_tokens),
{
}

/// The latest messages of a history that fit in the room that is left.
fn select_latest(history: &[Message], room: i128) -> (r: Vec<ApiMessage>)
    requires
        room <= 4 * (u64::MAX as int),
        room >= -(4 * (u64::MAX as int)),
    ensures
        api_views(r@) == latest(message_views(history@), room as int),
{
    let ghost all = message_views(history@);
    let mut left: i128 = room;
    let mut start: usize = history.len();
    let mut backwards: Vec<ApiMessage> = Vec::new();
    let ghost mut tail: Seq<ApiView> = seq![];
    assert(all.take(start as int) =~= all);
    assert(latest(all, room as int) + tail =~= latest(all, room as int));
    while start > 0
        invariant
            start <= history.len(),
            all == message_views(history@),
            left <= 4 * (u64::MAX as int),
            left >= -(4 * (u64::MAX as int)),
            backwards@.len() == tail.len(),
            forall|j: int|
                0 <= j < tail.len() ==> (#[trigger] tail[j]) == backwards@[tail.len() - 1 - j]@,
            latest(all.take(start as int), left as int) + tail == latest(all, room as int),
        decreases start,
    {
        let i: usize = start - 1;
        let ghost part = all.take(start as int);
        assert(part.drop_last() =~= all.take(i as int));
        assert(part.last() == history@[i as int]@);
        let role = history[i].role.as_str();
        if (same(role, "user") || same(role, "assistant")) && !blank(
            history[i].content.as_str(),
        ) {
            let size = bytes_of(history[i].content.as_str());
            if size as i128 > left {
                proof {
                    assert(latest(part, left as int) + tail =~= tail);
                }
                return reversed(backwards, Ghost(tail));
            }
            let message = ApiMessage {
                role: history[i].role.clone(),
                content: history[i].content.clone(),
            };
            backwards.push(message);
            proof {
                let rest = latest(all.take(i as int), left - size);
                let longer = seq![message@] + tail;
                assert(rest.push(message@) + tail =~= rest + longer);
                assert forall|j: int| 0 <= j < longer.len() implies (#[trigger] longer[j])
                    == backwards@[longer.len() - 1 - j]@ by {
                    if j > 0 {
                        assert(tail[j - 1] == backwards@[tail.len() - 1 - (j - 1)]@);
                    }
                }
                tail = longer;
            }
            left = left - size as i128;
        }
        start = i;
    }
    proof {
        assert(latest(all.take(0), left as int) + tail =~= tail);
    }
    reversed(backwards, Ghost(tail))
}

fn reversed(v: Vec<ApiMessage>, want: Ghost<Seq<ApiView>>) -> (r: Vec<ApiMessage>)
    requires
        v@.len() == want@.len(),
        forall|j: int| 0 <= j < want@.len() ==> (#[trigger] want@[j]) == v@[want@.len() - 1 - j]@,
    ensures
        api_views(r@) == want@,
{
    let mut v = v;
    let mut r: Vec<ApiMessage> = Vec::new();
    while v.len() > 0
        invariant
            v@.len() + r@.len() == want@.len(),
            forall|j: int| 0 <= j < r@.len() ==> (#[trigger] r@[j])@ == want@[j],
            forall|j: int|
                r@.len() <= j < want@.len() ==> (#[trigger] want@[j]) == v@[want@.len() - 1 - j]@,
        decreases v@.len(),
    {
        let ghost n = r@.len();
        assert(want@[n as int] == v@[want@.len() - 1 - n]@);
        let m = v.pop();
        match m {
            Some(message) => {
                r.push(message);
            },
            None => {},
        }
    }
    assert(api_views(r@) =~= want@);
    r
}

// --------------------------------------------------------- template of a model

/// What a chat server says of its template.
#[derive(Debug, PartialEq, Eq)]
pub struct ChatProps {
    pub supports_system_role: Option<bool>,
    pub chat_template: Option<String>,
}

/// A JSON value.
#[verifier::external_type_specification]
#[verifier::external_body]
pub struct ExJson(serde_json::Value);

/// The value that a text holds, where it is JSON.
pub uninterp spec fn json_value(text: Seq<char>) -> Option<serde_json::Value>;

/// The member of a JSON value under a key, where it is an object that has one.
pub uninterp spec fn json_member(value: serde_json::Value, key: Seq<char>) -> Option<
    serde_json::Value,
>;

/// What a JSON value is, where it is a boolean.
pub uninterp spec fn json_bool(value: serde_json::Value) -> Option<bool>;

/// What a JSON value is, where it is a string.
pub uninterp spec fn json_string(value: serde_json::Value) -> Option<Seq<char>>;

/// `serde_json::from_str` into a `serde_json::Value`: whether the text parses, and
/// which value it then holds, depends on the text alone.
#[verifier::external_body]
pub(crate) fn parse_json(text: &str) -> (r: Option<serde_json::Value>)
    ensures
        r == json_value(text@),
{
    serde_json::from_str(text).ok()
}

/// `serde_json::Value::get` with a string: the member depends on the value and the key
/// alone.
#[verifier::external_body]
pub(crate) fn member<'a>(value: &'a serde_json::Value, key: &str) -> (r: Option<
    &'a serde_json::Value,
>)
    ensures
        match r {
            Some(m) => json_member(*value, key@) == Some(*m),
            None => json_member(*value, key@) is None,
        },
{
    value.get(key)
}

/// `serde_json::Value::as_bool`: the boolean depends on the value alone.
#[verifier::external_body]
pub(crate) fn as_flag(value: &serde_json::Value) -> (r: Option<bool>)
    ensures
        r == json_bool(*value),
{
    value.as_bool()
}

/// `serde_json::Value::as_str`: the string depends on the value alone.
#[verifier::external_body]
pub(crate) fn as_text(value: &serde_json::Value) -> (r: Option<String>)
    ensures
        opt_text(r) == json_string(*value),
{
    value.as_str().map(str::to_owned)
}

/// The boolean member `inner` of the member `outer` of a JSON value.
pub open spec fn json_flag(value: serde_json::Value, outer: Seq<char>, inner: Seq<char>) -> Option<
    bool,
> {
    match json_member(value, outer) {
        Some(o) => match json_member(o, inner) {
            Some(m) => json_bool(m),
            None => None,
        },
        None => None,
    }
}

/// The string member `key` of a JSON value.
pub open spec fn json_text(value: serde_json::Value, key: Seq<char>) -> Option<Seq<char>> {
    match json_member(value, key) {
        Some(m) => json_string(m),
        None => None,
    }
}

fn nested_flag(value: &serde_json::Value, outer: &str, inner: &str) -> (r: Option<bool>)
    ensures
        r == json_flag(*value, outer@, inner@),
{
    match member(value, outer) {
        Some(o) => match member(o, inner) {
            Some(m) => as_flag(m),
            None => None,
        },
        None => None,
    }
}

fn text_member(value: &serde_json::Value, key: &str) -> (r: Option<String>)
    ensures
        opt_text(r) == json_text(*value, key@),
{
    match member(value, key) {
        Some(m) => as_text(m),
        None => None,
    }
}

/// The template, in small letters, speaks of system messages.
pub open spec fn mentions_system(template: Seq<char>) -> bool {
    contains(template, "system"@) || contains(template, "<<sys>>"@) || contains(
        template,
        "system_message"@,
    )
}

/// The profile of a template: what the server says of system messages or, where
/// it does not say, whether the template speaks of them.
pub open spec fn profile_of(supports: Option<bool>, template: Option<Seq<char>>) -> TemplateProfile {
    match supports {
        Some(false) => TemplateProfile::NoSystem,
        Some(true) => TemplateProfile::TemplateDriven,
        None => match template {
            Some(t) if mentions_system(ascii_lower(t)) => TemplateProfile::SystemSupported,
            _ => TemplateProfile::StandardAlternating,
        },
    }
}

/// The profile of the template of a chat server.
pub fn profile_from_props(props: &ChatProps) -> (r: TemplateProfile)
    ensures
        r == profile_of(props.supports_system_role, opt_text(props.chat_template)),
{
    match props.supports_system_role {
        Some(supported) => {
            if supported {
                TemplateProfile::TemplateDriven
            } else {
                TemplateProfile::NoSystem
            }
        },
        None => {
            match &props.chat_template {
                Some(template) => {
                    let small = to_ascii_lower(template.as_str());
                    if has(small.as_str(), "system") || has(small.as_str(), "<<sys>>") || has(
                        small.as_str(),
                        "system_message",
                    ) {
                        TemplateProfile::SystemSupported
                    } else {
                        TemplateProfile::StandardAlternating
                    }
                },
                None => TemplateProfile::StandardAlternating,
            }
        },
    }
}

/// The profile that a chat server's description of itself gives; none where it
/// is not JSON.
pub fn profile_from_json(body: &str) -> (r: Option<TemplateProfile>)
    ensures
        r == match json_value(body@) {
            Some(value) => Some(
                profile_of(
                    json_flag(value, "chat_template_caps"@, "supports_system_role"@),
                    json_text(value, "chat_template"@),
                ),
            ),
            None => None,
        },
{
    let value = match parse_json(body) {
        Some(value) => value,
        None => {
            return None;
        },
    };
    let props = ChatProps {
        supports_system_role: nested_flag(&value, "chat_template_caps", "supports_system_role"),
        chat_template: text_member(&value, "chat_template"),
    };
    Some(profile_from_props(&props))
}

} // verus!
