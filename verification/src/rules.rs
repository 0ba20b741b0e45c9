//! The rule engine: an ordered list of rules, each of which sends the
//! destinations it matches to an action. The first rule that matches decides.

use vstd::prelude::*;
use vstd::string::StringExecFns;
use crate::net::Ipv4Cidr;
use crate::text::{
    chars_of, contains_text, ends_with, same_str, same_text, split, split_fields, text_contains,
    text_ends_with,
};

verus! {

/// What is done with a connection.
#[derive(Clone, Debug, PartialEq, Eq)]
pub enum Action {
    /// Connect to the destination itself.
    Direct,
    /// Tunnel through the upstream server of this name.
    Proxy(String),
    /// Close the connection.
    Reject,
}

/// An action, with the server's name as a sequence of characters.
pub enum ActionView {
    Direct,
    Proxy(Seq<char>),
    Reject,
}

impl View for Action {
    type V = ActionView;

    open spec fn view(&self) -> ActionView {
        match self {
            Action::Direct => ActionView::Direct,
            Action::Proxy(name) => ActionView::Proxy(name@),
            Action::Reject => ActionView::Reject,
        }
    }
}

impl DeepView for Action {
    type V = ActionView;

    open spec fn deep_view(&self) -> ActionView {
        self@
    }
}

impl Action {
    /// A copy of the action.
    pub fn duplicate(&self) -> (a: Action)
        ensures
            a@ == self@,
    {
        match self {
            Action::Direct => Action::Direct,
            Action::Proxy(name) => Action::Proxy(name.clone()),
            Action::Reject => Action::Reject,
        }
    }
}

/// One rule.
#[derive(Clone, Debug, PartialEq, Eq)]
pub enum Rule {
    /// Matches the domain that equals the text.
    Domain(String, Action),
    /// Matches every domain that ends with the text.
    DomainSuffix(String, Action),
    /// Matches every domain that holds the text somewhere.
    DomainKeyword(String, Action),
    /// Matches every address of the block, where no domain is known.
    IpCidr(Ipv4Cidr, Action),
    /// Matches every address of the country, where no domain is known.
    GeoIp(String, Action),
    /// Matches everything.
    Match(Action),
}

/// A rule, with its texts as sequences of characters.
pub enum RuleView {
    Domain(Seq<char>, ActionView),
    DomainSuffix(Seq<char>, ActionView),
    DomainKeyword(Seq<char>, ActionView),
    IpCidr(Ipv4Cidr, ActionView),
    GeoIp(Seq<char>, ActionView),
    Match(ActionView),
}

impl RuleView {
    /// The action that the rule sends its matches to.
    pub open spec fn action(self) -> ActionView {
        match self {
            RuleView::Domain(_, a) => a,
            RuleView::DomainSuffix(_, a) => a,
            RuleView::DomainKeyword(_, a) => a,
            RuleView::IpCidr(_, a) => a,
            RuleView::GeoIp(_, a) => a,
            RuleView::Match(a) => a,
        }
    }
}

impl View for Rule {
    type V = RuleView;

    open spec fn view(&self) -> RuleView {
        match self {
            Rule::Domain(d, a) => RuleView::Domain(d@, a@),
            Rule::DomainSuffix(d, a) => RuleView::DomainSuffix(d@, a@),
            Rule::DomainKeyword(d, a) => RuleView::DomainKeyword(d@, a@),
            Rule::IpCidr(c, a) => RuleView::IpCidr(*c, a@),
            Rule::GeoIp(country, a) => RuleView::GeoIp(country@, a@),
            Rule::Match(a) => RuleView::Match(a@),
        }
    }
}

impl DeepView for Rule {
    type V = RuleView;

    open spec fn deep_view(&self) -> RuleView {
        self@
    }
}

/// Why a rule or a rule list was refused.
#[derive(Clone, Copy, Debug, PartialEq, Eq, Structural)]
pub enum RuleError {
    /// The first field names no kind of rule.
    UnknownType,
    /// The rule has more or fewer fields than its kind takes.
    Malformed,
    /// The last field, which names the action, is empty.
    EmptyAction,
    /// The field between the kind and the action is empty.
    EmptyValue,
    /// The value of an `IP-CIDR` rule is no block written as `a.b.c.d/n`.
    InvalidCidr,
    /// A `MATCH` rule stands before the end of the list.
    MatchNotLast,
}

/// The classifier found no rule that matches.
#[derive(Clone, Copy, Debug, PartialEq, Eq, Structural)]
pub struct NoMatch;

/// The countries of address blocks: one entry of the table that `GEOIP`
/// rules are answered from.
#[derive(Clone, Debug, PartialEq, Eq)]
pub struct GeoEntry {
    pub block: Ipv4Cidr,
    pub country: String,
}

/// A table entry, with the country as a sequence of characters.
pub struct GeoEntryView {
    pub block: Ipv4Cidr,
    pub country: Seq<char>,
}

impl View for GeoEntry {
    type V = GeoEntryView;

    open spec fn view(&self) -> GeoEntryView {
        GeoEntryView { block: self.block, country: self.country@ }
    }
}

impl DeepView for GeoEntry {
    type V = GeoEntryView;

    open spec fn deep_view(&self) -> GeoEntryView {
        self@
    }
}

/// The country of the first table entry whose block holds `ip`.
pub open spec fn country_of(geo: Seq<GeoEntryView>, ip: u32) -> Option<Seq<char>>
    decreases geo.len(),
{
    if geo.len() == 0 {
        None
    } else if geo[0].block.spec_contains(ip) {
        Some(geo[0].country)
    } else {
        country_of(geo.drop_first(), ip)
    }
}

/// Whether `rule` matches a destination of which the domain, the address,
/// or both are known. Where the domain is known only the rules on domains
/// are tried, and the rules on addresses only where it is not.
pub open spec fn rule_matches(
    rule: RuleView,
    domain: Option<Seq<char>>,
    ip: Option<u32>,
    geo: Seq<GeoEntryView>,
) -> bool {
    match rule {
        RuleView::Domain(d, _) => domain == Some(d),
        RuleView::DomainSuffix(suffix, _) => domain matches Some(name) && ends_with(name, suffix),
        RuleView::DomainKeyword(word, _) => domain matches Some(name) && contains_text(name, word),
        RuleView::IpCidr(block, _) => domain is None && (ip matches Some(a)
            && block.spec_contains(a)),
        RuleView::GeoIp(country, _) => domain is None && (ip matches Some(a) && country_of(geo, a)
            == Some(country)),
        RuleView::Match(_) => true,
    }
}

/// The action of the first rule in the list that matches, if one does.
pub open spec fn first_match(
    rules: Seq<RuleView>,
    domain: Option<Seq<char>>,
    ip: Option<u32>,
    geo: Seq<GeoEntryView>,
) -> Option<ActionView>
    decreases rules.len(),
{
    if rules.len() == 0 {
        None
    } else if rule_matches(rules[0], domain, ip, geo) {
        Some(rules[0].action())
    } else {
        first_match(rules.drop_first(), domain, ip, geo)
    }
}

/// Whether no `MATCH` rule stands before the end of the list.
pub open spec fn match_only_last(rules: Seq<RuleView>) -> bool {
    forall|i: int| 0 <= i < rules.len() - 1 ==> !(#[trigger] rules[i] is Match)
}

/// The action that the last field of a rule names: `DIRECT`, `REJECT`, or
/// the name of an upstream server.
pub open spec fn action_text(f: Seq<char>) -> Option<ActionView> {
    if f.len() == 0 {
        None
    } else if f == "DIRECT"@ {
        Some(ActionView::Direct)
    } else if f == "REJECT"@ {
        Some(ActionView::Reject)
    } else {
        Some(ActionView::Proxy(f))
    }
}

/// The kinds of rule, by the word that a rule starts with.
#[derive(Clone, Copy, Debug, PartialEq, Eq, Structural)]
pub enum RuleKind {
    Domain,
    DomainSuffix,
    DomainKeyword,
    IpCidr,
    GeoIp,
    Match,
}

impl RuleKind {
    /// How many fields a rule of this kind has.
    pub open spec fn arity(self) -> nat {
        match self {
            RuleKind::Match => 2,
            _ => 3,
        }
    }
}

/// The kind that the first field of a rule names.
pub open spec fn kind_text(f: Seq<char>) -> Option<RuleKind> {
    if f == "DOMAIN"@ {
        Some(RuleKind::Domain)
    } else if f == "DOMAIN-SUFFIX"@ {
        Some(RuleKind::DomainSuffix)
    } else if f == "DOMAIN-KEYWORD"@ {
        Some(RuleKind::DomainKeyword)
    } else if f == "IP-CIDR"@ {
        Some(RuleKind::IpCidr)
    } else if f == "GEOIP"@ {
        Some(RuleKind::GeoIp)
    } else if f == "MATCH"@ {
        Some(RuleKind::Match)
    } else {
        None
    }
}

/// The rule that a line of the form `TYPE,VALUE,ACTION` or `MATCH,ACTION`
/// writes, or why the line writes none.
pub open spec fn rule_text(s: Seq<char>) -> Result<RuleView, RuleError> {
    let f = split_fields(s, ',');
    match kind_text(f[0]) {
        None => Err(RuleError::UnknownType),
        Some(kind) => if f.len() != kind.arity() {
            Err(RuleError::Malformed)
        } else {
            match action_text(f.last()) {
                None => Err(RuleError::EmptyAction),
                Some(action) => if kind == RuleKind::Match {
                    Ok(RuleView::Match(action))
                } else if f[1].len() == 0 {
                    Err(RuleError::EmptyValue)
                } else {
                    match kind {
                        RuleKind::Domain => Ok(RuleView::Domain(f[1], action)),
                        RuleKind::DomainSuffix => Ok(RuleView::DomainSuffix(f[1], action)),
                        RuleKind::DomainKeyword => Ok(RuleView::DomainKeyword(f[1], action)),
                        RuleKind::GeoIp => Ok(RuleView::GeoIp(f[1], action)),
                        _ => match Ipv4Cidr::spec_parse(f[1]) {
                            Some(block) => Ok(RuleView::IpCidr(block, action)),
                            None => Err(RuleError::InvalidCidr),
                        },
                    }
                },
            }
        },
    }
}

/// The rules that the lines write, or the error of the first line that
/// writes none.
pub open spec fn rules_text(lines: Seq<Seq<char>>) -> Result<Seq<RuleView>, RuleError>
    decreases lines.len(),
{
    if lines.len() == 0 {
        Ok(Seq::empty())
    } else {
        match rules_text(lines.drop_last()) {
            Err(e) => Err(e),
            Ok(rules) => match rule_text(lines.last()) {
                Ok(rule) => Ok(rules.push(rule)),
                Err(e) => Err(e),
            },
        }
    }
}

/// The rule list that the lines write, or why they write none: the error
/// of the first line that writes no rule, or that a `MATCH` rule stands
/// before the end.
pub open spec fn compiled_text(lines: Seq<Seq<char>>) -> Result<Seq<RuleView>, RuleError> {
    match rules_text(lines) {
        Err(e) => Err(e),
        Ok(rules) => if match_only_last(rules) {
            Ok(rules)
        } else {
            Err(RuleError::MatchNotLast)
        },
    }
}

/// Lines whose first `k` write no rule list write none as a whole, for the
/// same reason.
proof fn lemma_rules_text_fails(lines: Seq<Seq<char>>, k: int)
    requires
        0 <= k <= lines.len(),
        rules_text(lines.take(k)) is Err,
    ensures
        rules_text(lines) == rules_text(lines.take(k)),
    decreases lines.len() - k,
{
    if k < lines.len() {
        assert(lines.take(k + 1).drop_last() =~= lines.take(k));
        lemma_rules_text_fails(lines, k + 1);
    } else {
        assert(lines.take(k) =~= lines);
    }
}

/// Reads the kind of a rule.
pub fn parse_kind(f: &str) -> (r: Option<RuleKind>)
    ensures
        r == kind_text(f@),
{
    if same_str(f, "DOMAIN") {
        Some(RuleKind::Domain)
    } else if same_str(f, "DOMAIN-SUFFIX") {
        Some(RuleKind::DomainSuffix)
    } else if same_str(f, "DOMAIN-KEYWORD") {
        Some(RuleKind::DomainKeyword)
    } else if same_str(f, "IP-CIDR") {
        Some(RuleKind::IpCidr)
    } else if same_str(f, "GEOIP") {
        Some(RuleKind::GeoIp)
    } else if same_str(f, "MATCH") {
        Some(RuleKind::Match)
    } else {
        None
    }
}

/// Reads the action of a rule.
pub fn parse_action(f: &str) -> (r: Option<Action>)
    ensures
        match r {
            Some(a) => action_text(f@) == Some(a@),
            None => action_text(f@) is None,
        },
{
    let chars = chars_of(f);
    if chars.len() == 0 {
        None
    } else if same_str(f, "DIRECT") {
        Some(Action::Direct)
    } else if same_str(f, "REJECT") {
        Some(Action::Reject)
    } else {
        Some(Action::Proxy(String::from_str(f)))
    }
}

impl Rule {
    /// Reads a rule written as `TYPE,VALUE,ACTION` or `MATCH,ACTION`.
    pub fn from_str(s: &str) -> (r: Result<Rule, RuleError>)
        ensures
            match r {
                Ok(rule) => rule_text(s@) == Ok::<RuleView, RuleError>(rule@),
                Err(e) => rule_text(s@) == Err::<RuleView, RuleError>(e),
            },
    {
        let fields = split(s, ',');
        proof {
            crate::text::lemma_split_nonempty(s@, ',');
        }
        let count = fields.len();
        assert(fields.deep_view()[0] == fields@[0]@);
        assert(fields.deep_view().last() == fields@[count - 1]@);
        let kind = match parse_kind(fields[0].as_str()) {
            Some(kind) => kind,
            None => {
                return Err(RuleError::UnknownType);
            },
        };
        let arity: usize = match kind {
            RuleKind::Match => 2,
            _ => 3,
        };
        if count != arity {
            return Err(RuleError::Malformed);
        }
        let action = match parse_action(fields[count - 1].as_str()) {
            Some(action) => action,
            None => {
                return Err(RuleError::EmptyAction);
            },
        };
        if let RuleKind::Match = kind {
            return Ok(Rule::Match(action));
        }
        assert(fields.deep_view()[1] == fields@[1]@);
        let value = fields[1].as_str();
        if chars_of(value).len() == 0 {
            return Err(RuleError::EmptyValue);
        }
        match kind {
            RuleKind::Domain => Ok(Rule::Domain(String::from_str(value), action)),
            RuleKind::DomainSuffix => Ok(Rule::DomainSuffix(String::from_str(value), action)),
            RuleKind::DomainKeyword => Ok(Rule::DomainKeyword(String::from_str(value), action)),
            RuleKind::GeoIp => Ok(Rule::GeoIp(String::from_str(value), action)),
            _ => match Ipv4Cidr::parse(value) {
                Some(block) => Ok(Rule::IpCidr(block, action)),
                None => Err(RuleError::InvalidCidr),
            },
        }
    }

    /// The action that the rule sends its matches to.
    pub fn action(&self) -> (a: &Action)
        ensures
            a@ == self@.action(),
    {
        match self {
            Rule::Domain(_, a) => a,
            Rule::DomainSuffix(_, a) => a,
            Rule::DomainKeyword(_, a) => a,
            Rule::IpCidr(_, a) => a,
            Rule::GeoIp(_, a) => a,
            Rule::Match(a) => a,
        }
    }
}

/// The country of the first table entry whose block holds `ip`, as its place
/// in the table.
fn find_country(geo: &Vec<GeoEntry>, ip: u32) -> (r: Option<usize>)
    ensures
        match r {
            Some(i) => i < geo.len() && country_of(geo.deep_view(), ip) == Some(
                geo@[i as int].country@,
            ),
            None => country_of(geo.deep_view(), ip) is None,
        },
{
    let mut i: usize = 0;
    assert(geo.deep_view().skip(0) =~= geo.deep_view());
    while i < geo.len()
        invariant
            i <= geo.len(),
            country_of(geo.deep_view(), ip) == country_of(geo.deep_view().skip(i as int), ip),
        decreases geo.len() - i,
    {
        let ghost rest = geo.deep_view().skip(i as int);
        assert(rest[0] == geo@[i as int]@);
        assert(rest.drop_first() =~= geo.deep_view().skip(i + 1));
        if geo[i].block.contains(ip) {
            return Some(i);
        }
        i += 1;
    }
    None
}

/// The compiled rule list, with the table that `GEOIP` rules are answered
/// from.
#[derive(Debug)]
pub struct ProxyRules {
    rules: Vec<Rule>,
    geo: Vec<GeoEntry>,
}

impl ProxyRules {
    /// No `MATCH` rule stands before the end of the list.
    #[verifier::type_invariant]
    pub closed spec fn wf(self) -> bool {
        match_only_last(self.rules.deep_view())
    }

    /// The rules, in the order in which they are tried.
    pub closed spec fn rules(self) -> Seq<RuleView> {
        self.rules.deep_view()
    }

    /// The table of countries.
    pub closed spec fn geo(self) -> Seq<GeoEntryView> {
        self.geo.deep_view()
    }

    /// What the classifier answers for a destination.
    pub open spec fn spec_classify(self, domain: Option<Seq<char>>, ip: Option<u32>) -> Option<
        ActionView,
    > {
        first_match(self.rules(), domain, ip, self.geo())
    }

    /// Compiles a rule list, with an empty table of countries. A list with a
    /// `MATCH` rule before its end is refused.
    pub fn new(rules: Vec<Rule>) -> (r: Result<ProxyRules, RuleError>)
        ensures
            match r {
                Ok(compiled) => match_only_last(rules.deep_view()) && compiled.wf()
                    && compiled.rules() == rules.deep_view() && compiled.geo().len() == 0,
                Err(e) => !match_only_last(rules.deep_view()) && e == RuleError::MatchNotLast,
            },
    {
        Self::with_geo(rules, Vec::new())
    }

    /// Compiles a rule list together with a table of countries.
    pub fn with_geo(rules: Vec<Rule>, geo: Vec<GeoEntry>) -> (r: Result<ProxyRules, RuleError>)
        ensures
            match r {
                Ok(compiled) => match_only_last(rules.deep_view()) && compiled.wf()
                    && compiled.rules() == rules.deep_view() && compiled.geo() == geo.deep_view(),
                Err(e) => !match_only_last(rules.deep_view()) && e == RuleError::MatchNotLast,
            },
    {
        let mut i: usize = 0;
        let last: usize = if rules.len() == 0 {
            0
        } else {
            rules.len() - 1
        };
        while i < last
            invariant
                i <= last,
                last == if rules.len() == 0 {
                    0
                } else {
                    rules.len() - 1
                },
                forall|j: int| 0 <= j < i ==> !(rules.deep_view()[j] is Match),
            decreases last - i,
        {
            assert(rules.deep_view()[i as int] == rules@[i as int]@);
            if let Rule::Match(_) = &rules[i] {
                return Err(RuleError::MatchNotLast);
            }
            i += 1;
        }
        Ok(ProxyRules { rules, geo })
    }

    /// Reads and compiles a rule list, one rule per line. The first line
    /// that writes no rule decides the error; a list of rules with a `MATCH`
    /// rule before its end is refused.
    pub fn compile(lines: &Vec<String>) -> (r: Result<ProxyRules, RuleError>)
        ensures
            match r {
                Ok(compiled) => compiled.wf() && compiled.geo().len() == 0 && compiled_text(
                    lines.deep_view(),
                ) == Ok::<Seq<RuleView>, RuleError>(compiled.rules()),
                Err(e) => compiled_text(lines.deep_view()) == Err::<Seq<RuleView>, RuleError>(e),
            },
    {
        let mut rules: Vec<Rule> = Vec::new();
        let mut i: usize = 0;
        let ghost text = lines.deep_view();
        assert(text.take(0) =~= Seq::<Seq<char>>::empty());
        assert(rules.deep_view() =~= Seq::<RuleView>::empty());
        while i < lines.len()
            invariant
                i <= lines.len(),
                text == lines.deep_view(),
                rules_text(text.take(i as int)) == Ok::<Seq<RuleView>, RuleError>(
                    rules.deep_view(),
                ),
            decreases lines.len() - i,
        {
            let ghost before = rules.deep_view();
            proof {
                assert(text.take(i + 1).drop_last() =~= text.take(i as int));
                assert(text.take(i + 1).last() == lines@[i as int]@);
            }
            match Rule::from_str(lines[i].as_str()) {
                Ok(rule) => {
                    rules.push(rule);
                    assert(rules.deep_view() =~= before.push(rule@));
                },
                Err(e) => {
                    proof {
                        lemma_rules_text_fails(text, i + 1);
                    }
                    return Err(e);
                },
            }
            i += 1;
        }
        assert(text.take(i as int) =~= text);
        Self::new(rules)
    }

    /// The action of the first rule that matches the destination. Where the
    /// domain is known only the rules on domains are tried, and the rules on
    /// addresses only where it is not; a `MATCH` rule matches everything.
    pub fn classify(&self, domain: Option<&str>, ip: Option<u32>, port: u16) -> (r: Result<
        Action,
        NoMatch,
    >)
        ensures
            match r {
                Ok(a) => self.spec_classify(view_of(domain), ip) == Some(a@),
                Err(_) => self.spec_classify(view_of(domain), ip) is None,
            },
            self.rules().len() > 0 && self.rules().last() is Match ==> r is Ok,
    {
        proof {
            law_match_is_total(self.rules(), view_of(domain), ip, self.geo());
        }
        let name: Option<Vec<char>> = match domain {
            Some(d) => Some(chars_of(d)),
            None => None,
        };
        let mut i: usize = 0;
        assert(self.rules().skip(0) =~= self.rules());
        while i < self.rules.len()
            invariant
                i <= self.rules.len(),
                match name {
                    Some(n) => view_of(domain) == Some(n@),
                    None => view_of(domain) is None,
                },
                self.spec_classify(view_of(domain), ip) == first_match(
                    self.rules().skip(i as int),
                    view_of(domain),
                    ip,
                    self.geo(),
                ),
            decreases self.rules.len() - i,
        {
            let ghost rest = self.rules().skip(i as int);
            assert(rest[0] == self.rules@[i as int]@);
            assert(rest.drop_first() =~= self.rules().skip(i + 1));
            let rule = &self.rules[i];
            let hit = match rule {
                Rule::Domain(d, _) => match &name {
                    Some(n) => same_text(n, &chars_of(d.as_str())),
                    None => false,
                },
                Rule::DomainSuffix(suffix, _) => match &name {
                    Some(n) => text_ends_with(n, &chars_of(suffix.as_str())),
                    None => false,
                },
                Rule::DomainKeyword(word, _) => match &name {
                    Some(n) => text_contains(n, &chars_of(word.as_str())),
                    None => false,
                },
                Rule::IpCidr(block, _) => match (&name, ip) {
                    (None, Some(a)) => block.contains(a),
                    _ => false,
                },
                Rule::GeoIp(country, _) => match (&name, ip) {
                    (None, Some(a)) => match find_country(&self.geo, a) {
                        Some(at) => same_str(self.geo[at].country.as_str(), country.as_str()),
                        None => false,
                    },
                    _ => false,
                },
                Rule::Match(_) => true,
            };
            if hit {
                return Ok(rule.action().duplicate());
            }
            i += 1;
        }
        Err(NoMatch)
    }

    /// How many rules the list holds.
    pub fn len(&self) -> (n: usize)
        ensures
            n == self.rules().len(),
    {
        self.rules.len()
    }
}

/// The characters of a domain that may be absent.
pub open spec fn view_of(domain: Option<&str>) -> Option<Seq<char>> {
    match domain {
        Some(d) => Some(d@),
        None => None,
    }
}

/// A rule list that ends in a `MATCH` rule classifies every destination.
pub proof fn law_match_is_total(
    rules: Seq<RuleView>,
    domain: Option<Seq<char>>,
    ip: Option<u32>,
    geo: Seq<GeoEntryView>,
)
    ensures
        rules.len() > 0 && rules.last() is Match ==> first_match(rules, domain, ip, geo) is Some,
    decreases rules.len(),
{
    if rules.len() > 1 && rules.last() is Match {
        assert(rules.drop_first().last() == rules.last());
        law_match_is_total(rules.drop_first(), domain, ip, geo);
    }
}

/// The first match wins: the classifier answers with the action of a rule
/// exactly when that rule matches and none before it does, and finds no
/// match exactly when no rule matches.
pub proof fn law_first_match_wins(
    rules: Seq<RuleView>,
    domain: Option<Seq<char>>,
    ip: Option<u32>,
    geo: Seq<GeoEntryView>,
)
    ensures
        match first_match(rules, domain, ip, geo) {
            Some(a) => exists|i: int|
                0 <= i < rules.len() && rule_matches(#[trigger] rules[i], domain, ip, geo)
                    && rules[i].action() == a && forall|j: int|
                    0 <= j < i ==> !rule_matches(#[trigger] rules[j], domain, ip, geo),
            None => forall|i: int|
                0 <= i < rules.len() ==> !rule_matches(#[trigger] rules[i], domain, ip, geo),
        },
    decreases rules.len(),
{
    if rules.len() > 0 && !rule_matches(rules[0], domain, ip, geo) {
        let rest = rules.drop_first();
        law_first_match_wins(rest, domain, ip, geo);
        match first_match(rest, domain, ip, geo) {
            Some(a) => {
                let i = choose|i: int|
                    0 <= i < rest.len() && rule_matches(#[trigger] rest[i], domain, ip, geo)
                        && rest[i].action() == a && forall|j: int|
                        0 <= j < i ==> !rule_matches(#[trigger] rest[j], domain, ip, geo);
                assert(rules[i + 1] == rest[i]);
                assert forall|j: int| 0 <= j < i + 1 implies !rule_matches(
                    #[trigger] rules[j],
                    domain,
                    ip,
                    geo,
                ) by {
                    if j > 0 {
                        assert(rules[j] == rest[j - 1]);
                    }
                }
            },
            None => {
                assert forall|i: int| 0 <= i < rules.len() implies !rule_matches(
                    #[trigger] rules[i],
                    domain,
                    ip,
                    geo,
                ) by {
                    if i > 0 {
                        assert(rules[i] == rest[i - 1]);
                    }
                }
            },
        }
    } else if rules.len() > 0 {
        assert(rule_matches(rules[0], domain, ip, geo));
    }
}

} // verus!
