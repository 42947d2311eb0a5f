//! Classification rules: each rule names device codename patterns and the
//! security categories it settles; a rule set resolves a device into its
//! status per category.

use vstd::prelude::*;
use crate::hardware::Device;

verus! {

/// A security property that rules classify.
#[derive(Debug, Clone, Copy, PartialEq, Eq, Structural)]
pub enum Category {
    SecureBoot,
    HardwareKeystore,
    BfuSecure,
    AfuSecure,
}

/// What a rule concludes for one category of a device.
#[derive(Debug, Clone, PartialEq, Eq)]
pub struct Status {
    pub class: String,
    pub conclusion: String,
    pub reference: Option<String>,
}

/// An item with the status that the rules give it in each category.
#[derive(Debug, Clone, PartialEq, Eq)]
pub struct Detailed<T> {
    pub item: T,
    pub secure_boot: Option<Status>,
    pub hardware_keystore: Option<Status>,
    pub bfu_secure: Option<Status>,
    pub afu_secure: Option<Status>,
}

impl<T> Detailed<T> {
    /// The status held for category `c`.
    pub open spec fn slot(self, c: Category) -> Option<Status> {
        match c {
            Category::SecureBoot => self.secure_boot,
            Category::HardwareKeystore => self.hardware_keystore,
            Category::BfuSecure => self.bfu_secure,
            Category::AfuSecure => self.afu_secure,
        }
    }
}

/// One rule: the device codename patterns it applies to, the categories it
/// settles, and the status it gives them.
#[derive(Debug, Clone, PartialEq, Eq)]
pub struct Rule {
    pub devices: Vec<String>,
    pub categories: Vec<Category>,
    pub class: String,
    pub conclusion: String,
    pub reference: Option<String>,
}

/// The content of a rule, as plain sequences.
pub struct RuleView {
    pub devices: Seq<Seq<char>>,
    pub categories: Seq<Category>,
    pub class: Seq<char>,
    pub conclusion: Seq<char>,
    pub reference: Option<Seq<char>>,
}

impl View for Rule {
    type V = RuleView;

    open spec fn view(&self) -> RuleView {
        RuleView {
            devices: self.devices.deep_view(),
            categories: self.categories@,
            class: self.class@,
            conclusion: self.conclusion@,
            reference: self.reference.deep_view(),
        }
    }
}

/// The rules of one rules file, in file order.
#[derive(Debug, Clone, PartialEq, Eq)]
pub struct RulesFile {
    pub rules: Vec<Rule>,
}

/// Why rules could not be loaded.
#[derive(Debug, Clone, PartialEq, Eq)]
pub enum RuleError {
    /// A device pattern is not a valid glob pattern.
    InvalidPattern { pattern: String, pos: usize, msg: String },
}

/// The error that `glob::Pattern::new` reports for a pattern (position and
/// message), or `None` where it compiles the pattern.
pub uninterp spec fn glob_compile_error(pattern: Seq<char>) -> Option<(usize, Seq<char>)>;

/// Whether the compiled glob `pattern` matches `name` (`glob::Pattern::matches`
/// with the default options).
pub uninterp spec fn glob_pattern_matches(pattern: Seq<char>, name: Seq<char>) -> bool;

/// A pattern with no glob metacharacter and no path separator: it stands
/// for itself alone.
pub open spec fn literal_glob(pattern: Seq<char>) -> bool {
    forall|i: int|
        0 <= i < pattern.len() ==> #[trigger] pattern[i] != '*' && pattern[i] != '?'
            && pattern[i] != '[' && pattern[i] != '/' && pattern[i] != '\\'
}

/// Wraps `glob::Pattern::new`, keeping only whether it failed and, if so,
/// the error's position and message. Claims that the outcome is the one
/// named by `glob_compile_error` for this pattern, and (as the crate's source
/// shows) that a pattern without metacharacters always compiles.
#[verifier::external_body]
fn glob_compile(pattern: &str) -> (r: Result<(), (usize, String)>)
    ensures
        match r {
            Ok(()) => glob_compile_error(pattern@) is None,
            Err((pos, msg)) => glob_compile_error(pattern@) == Some((pos, msg@)),
        },
        literal_glob(pattern@) ==> r is Ok,
{
    match glob::Pattern::new(pattern) {
        Ok(_) => Ok(()),
        Err(e) => Err((e.pos, e.msg.to_string())),
    }
}

/// Wraps `glob::Pattern::matches` on the compiled `pattern`. Claims that the
/// answer is the one named by `glob_pattern_matches`, and (as the crate's
/// source shows: such a pattern compiles to one literal token per character,
/// compared case-sensitively) that a pattern without metacharacters matches
/// exactly the identical name.
#[verifier::external_body]
fn glob_matches(pattern: &str, name: &str) -> (r: bool)
    requires
        glob_compile_error(pattern@) is None,
    ensures
        r == glob_pattern_matches(pattern@, name@),
        literal_glob(pattern@) ==> (r <==> name@ == pattern@),
{
    match glob::Pattern::new(pattern) {
        Ok(p) => p.matches(name),
        Err(_) => false,
    }
}

/// The status that `rule` gives.
pub open spec fn status_of(rule: Rule) -> Status {
    Status { class: rule.class, conclusion: rule.conclusion, reference: rule.reference }
}

/// Whether one of `rule`'s patterns matches `codename`.
pub open spec fn rule_applies(rule: Rule, codename: Seq<char>) -> bool {
    exists|i: int|
        0 <= i < rule.devices@.len() && glob_pattern_matches(
            (#[trigger] rule.devices@[i])@,
            codename,
        )
}

/// The status for category `cat` of a device with `codename`: that of the
/// last rule that applies to the device and lists the category, if any.
pub open spec fn resolved(rules: Seq<Rule>, codename: Seq<char>, cat: Category) -> Option<Status>
    decreases rules.len(),
{
    if rules.len() == 0 {
        None
    } else if rule_applies(rules.last(), codename) && rules.last().categories@.contains(cat) {
        Some(status_of(rules.last()))
    } else {
        resolved(rules.drop_last(), codename, cat)
    }
}

/// Whether `applies` marks the rule at `i` as applying (rules past its end
/// do not apply).
pub open spec fn marked(applies: Seq<bool>, i: int) -> bool {
    0 <= i < applies.len() && applies[i]
}

/// The status for category `cat`, given for each rule whether it applies:
/// that of the last marked rule that lists the category, if any.
pub open spec fn resolved_with(rules: Seq<Rule>, applies: Seq<bool>, cat: Category) -> Option<Status>
    decreases rules.len(),
{
    if rules.len() == 0 {
        None
    } else if marked(applies, rules.len() - 1) && rules.last().categories@.contains(cat) {
        Some(status_of(rules.last()))
    } else {
        resolved_with(rules.drop_last(), applies, cat)
    }
}

/// With each rule marked exactly where it applies to `codename`, the
/// statuses given the marks are the statuses of `codename`.
pub proof fn lemma_resolved_with_matches(rules: Seq<Rule>, applies: Seq<bool>, codename: Seq<char>, c: Category)
    requires
        applies.len() == rules.len(),
        forall|i: int| 0 <= i < rules.len() ==> #[trigger] applies[i] == rule_applies(rules[i], codename),
    ensures
        resolved_with(rules, applies, c) == resolved(rules, codename, c),
    decreases rules.len(),
{
    if rules.len() > 0 {
        let shorter = rules.drop_last();
        let marks = applies.drop_last();
        assert(applies[rules.len() - 1] == rule_applies(rules.last(), codename));
        lemma_resolved_with_matches(shorter, marks, codename, c);
        lemma_resolved_with_prefix(shorter, applies, marks, c);
    }
}

proof fn lemma_resolved_with_prefix(rules: Seq<Rule>, longer: Seq<bool>, marks: Seq<bool>, c: Category)
    requires
        marks.len() <= longer.len(),
        rules.len() <= marks.len(),
        forall|i: int| 0 <= i < marks.len() ==> #[trigger] marks[i] == longer[i],
    ensures
        resolved_with(rules, longer, c) == resolved_with(rules, marks, c),
    decreases rules.len(),
{
    if rules.len() > 0 {
        lemma_resolved_with_prefix(rules.drop_last(), longer, marks, c);
    }
}

/// Every device pattern of every rule compiles.
pub open spec fn patterns_valid(rules: Seq<Rule>) -> bool {
    forall|i: int, j: int|
        0 <= i < rules.len() && 0 <= j < rules[i].devices@.len() ==> glob_compile_error(
            (#[trigger] rules[i].devices@[j])@,
        ) is None
}

/// The error for the first invalid pattern, in rule order and then pattern
/// order, is `e`.
pub open spec fn first_invalid_pattern(rules: Seq<Rule>, e: RuleError) -> bool {
    exists|i: int, j: int|
        0 <= i < rules.len() && 0 <= j < rules[i].devices@.len() && {
            let p = (#[trigger] rules[i].devices@[j])@;
            &&& e matches RuleError::InvalidPattern { pattern, pos, msg } && pattern@ == p
                && glob_compile_error(p) == Some((pos, msg@))
            &&& patterns_valid(rules.take(i))
            &&& forall|k: int| 0 <= k < j ==> glob_compile_error(#[trigger] rules[i].devices@[k]@) is None
        }
}

fn clone_opt_string(o: &Option<String>) -> (r: Option<String>)
    ensures
        r == *o,
{
    match o {
        Some(s) => Some(s.clone()),
        None => None,
    }
}

impl Status {
    /// The status that `rule` gives.
    pub fn of_rule(rule: &Rule) -> (r: Status)
        ensures
            r == status_of(*rule),
    {
        Status {
            class: rule.class.clone(),
            conclusion: rule.conclusion.clone(),
            reference: clone_opt_string(&rule.reference),
        }
    }
}

impl RulesFile {
    /// A file without rules.
    pub fn new() -> (r: RulesFile)
        ensures
            r.rules@ == Seq::<Rule>::empty(),
    {
        RulesFile { rules: Vec::new() }
    }

    /// Appends `rule` after the rules already in the file.
    pub fn push(&mut self, rule: Rule)
        ensures
            final(self).rules@ == old(self).rules@.push(rule),
    {
        self.rules.push(rule);
    }
}

impl Default for RulesFile {
    fn default() -> (r: RulesFile)
        ensures
            r.rules@ == Seq::<Rule>::empty(),
    {
        RulesFile::new()
    }
}

/// The loaded rules, in load order; every device pattern in them compiles.
pub struct RuleSet {
    rules: Vec<Rule>,
}

fn any_pattern_matches(patterns: &Vec<String>, name: &String) -> (r: bool)
    requires
        forall|j: int| 0 <= j < patterns@.len() ==> glob_compile_error(#[trigger] patterns@[j]@) is None,
    ensures
        r == exists|j: int| 0 <= j < patterns@.len() && glob_pattern_matches((#[trigger] patterns@[j])@, name@),
{
    let mut j: usize = 0;
    while j < patterns.len()
        invariant
            j <= patterns@.len(),
            forall|k: int| 0 <= k < patterns@.len() ==> glob_compile_error(#[trigger] patterns@[k]@) is None,
            forall|k: int| 0 <= k < j ==> !glob_pattern_matches((#[trigger] patterns@[k])@, name@),
        decreases patterns.len() - j,
    {
        if glob_matches(patterns[j].as_str(), name.as_str()) {
            return true;
        }
        j += 1;
    }
    false
}

impl RuleSet {
    #[verifier::type_invariant]
    spec fn inv(self) -> bool {
        patterns_valid(self.rules@)
    }

    /// The loaded rules, in load order.
    pub closed spec fn view(self) -> Seq<Rule> {
        self.rules@
    }

    /// A rule set without rules.
    pub fn new() -> (r: RuleSet)
        ensures
            r@ == Seq::<Rule>::empty(),
    {
        RuleSet { rules: Vec::new() }
    }

    /// Loads the rules of `file` after those already loaded. Fails, loading
    /// nothing, where a device pattern does not compile; the error is that
    /// of the first such pattern.
    pub fn add_file(&mut self, file: RulesFile) -> (r: Result<(), RuleError>)
        ensures
            r is Ok <==> patterns_valid(file.rules@),
            r is Ok ==> final(self)@ == old(self)@ + file.rules@,
            r matches Err(e) ==> final(self)@ == old(self)@ && first_invalid_pattern(file.rules@, e),
    {
        let rules = &file.rules;
        let mut i: usize = 0;
        while i < rules.len()
            invariant
                *rules == file.rules,
                self.rules@ == old(self).rules@,
                i <= rules@.len(),
                patterns_valid(rules@.take(i as int)),
            decreases rules.len() - i,
        {
            let devices = &rules[i].devices;
            let mut j: usize = 0;
            while j < devices.len()
                invariant
                    *rules == file.rules,
                    self.rules@ == old(self).rules@,
                    i < rules@.len(),
                    devices == rules@[i as int].devices,
                    j <= devices@.len(),
                    patterns_valid(rules@.take(i as int)),
                    forall|k: int| 0 <= k < j ==> glob_compile_error(#[trigger] devices@[k]@) is None,
                decreases devices.len() - j,
            {
                match glob_compile(devices[j].as_str()) {
                    Ok(()) => {},
                    Err((pos, msg)) => {
                        let e = RuleError::InvalidPattern { pattern: devices[j].clone(), pos, msg };
                        assert(first_invalid_pattern(rules@, e)) by {
                            assert(rules@[i as int].devices@[j as int]@ == devices@[j as int]@);
                        }
                        assert(!patterns_valid(rules@)) by {
                            assert(glob_compile_error(rules@[i as int].devices@[j as int]@) is Some);
                        }
                        return Err(e);
                    },
                }
                j += 1;
            }
            assert forall|a: int, b: int|
                0 <= a < i + 1 && 0 <= b < rules@.take(i + 1)[a].devices@.len() implies glob_compile_error(
                (#[trigger] rules@.take(i + 1)[a].devices@[b])@,
            ) is None by {
                if a < i {
                    assert(rules@.take(i + 1)[a] == rules@.take(i as int)[a]);
                }
            }
            i += 1;
        }
        assert(rules@.take(i as int) =~= rules@);
        proof {
            use_type_invariant(&*self);
        }
        let ghost before = self.rules@;
        let mut rest = file.rules;
        let mut all = Vec::new();
        std::mem::swap(&mut all, &mut self.rules);
        all.append(&mut rest);
        assert(all@ == before + file.rules@);
        assert forall|a: int, b: int|
            0 <= a < all@.len() && 0 <= b < all@[a].devices@.len() implies glob_compile_error(
            (#[trigger] all@[a].devices@[b])@,
        ) is None by {
            if a >= before.len() {
                assert(all@[a] == file.rules@[a - before.len()]);
            }
        }
        self.rules = all;
        Ok(())
    }

    /// For each loaded rule, in order, whether it applies to `codename`.
    pub fn matching_rules(&self, codename: &String) -> (r: Vec<bool>)
        ensures
            r@.len() == self@.len(),
            forall|i: int| 0 <= i < r@.len() ==> #[trigger] r@[i] == rule_applies(self@[i], codename@),
    {
        proof {
            use_type_invariant(self);
        }
        let mut r: Vec<bool> = Vec::new();
        let mut i: usize = 0;
        while i < self.rules.len()
            invariant
                patterns_valid(self.rules@),
                i <= self.rules@.len(),
                r@.len() == i,
                forall|k: int| 0 <= k < i ==> #[trigger] r@[k] == rule_applies(self.rules@[k], codename@),
            decreases self.rules.len() - i,
        {
            let rule = &self.rules[i];
            assert forall|j: int| 0 <= j < rule.devices@.len() implies glob_compile_error(#[trigger] rule.devices@[j]@) is None by {
                assert(self.rules@[i as int].devices@[j] == rule.devices@[j]);
            }
            let applies = any_pattern_matches(&rule.devices, codename);
            r.push(applies);
            i += 1;
        }
        r
    }

    /// The device with its status in each category, given for each loaded
    /// rule whether it applies to the device (a rule without an entry in
    /// `applies` does not): for each category, the status of the last
    /// applying rule that lists the category; none where there is no such rule.
    pub fn resolve_with(&self, device: Device, applies: &Vec<bool>) -> (r: Detailed<Device>)
        ensures
            r.item == device,
            forall|c: Category| #[trigger] r.slot(c) == resolved_with(self@, applies@, c),
    {
        let mut detailed = Detailed {
            item: device,
            secure_boot: None,
            hardware_keystore: None,
            bfu_secure: None,
            afu_secure: None,
        };
        let mut i: usize = 0;
        while i < self.rules.len()
            invariant
                i <= self.rules@.len(),
                detailed.item == device,
                forall|c: Category| #[trigger] detailed.slot(c) == resolved_with(self.rules@.take(i as int), applies@, c),
            decreases self.rules.len() - i,
        {
            let rule = &self.rules[i];
            let ghost prefix = self.rules@.take(i as int);
            assert(self.rules@.take(i + 1).drop_last() =~= prefix);
            assert(self.rules@.take(i + 1).last() == *rule);
            if i < applies.len() && applies[i] {
                let mut j: usize = 0;
                while j < rule.categories.len()
                    invariant
                        *rule == self.rules@[i as int],
                        j <= rule.categories@.len(),
                        detailed.item == device,
                        forall|c: Category| #[trigger] detailed.slot(c) == if rule.categories@.take(j as int).contains(c) {
                            Some(status_of(*rule))
                        } else {
                            resolved_with(prefix, applies@, c)
                        },
                    decreases rule.categories.len() - j,
                {
                    let st = Status::of_rule(rule);
                    let cat = rule.categories[j];
                    let ghost before = detailed;
                    match cat {
                        Category::SecureBoot => detailed.secure_boot = Some(st),
                        Category::HardwareKeystore => detailed.hardware_keystore = Some(st),
                        Category::BfuSecure => detailed.bfu_secure = Some(st),
                        Category::AfuSecure => detailed.afu_secure = Some(st),
                    }
                    assert(forall|c: Category| #[trigger] detailed.slot(c) == if c == cat {
                        Some(status_of(*rule))
                    } else {
                        before.slot(c)
                    });
                    assert forall|c: Category| rule.categories@.take(j + 1).contains(c) <==> (rule.categories@.take(j as int).contains(c) || c == cat) by {
                        if rule.categories@.take(j + 1).contains(c) {
                            let k = choose|k: int| 0 <= k < j + 1 && #[trigger] rule.categories@.take(j + 1)[k] == c;
                            if k < j {
                                assert(rule.categories@.take(j as int)[k] == c);
                            }
                        }
                        if rule.categories@.take(j as int).contains(c) {
                            let k = choose|k: int| 0 <= k < j && #[trigger] rule.categories@.take(j as int)[k] == c;
                            assert(rule.categories@.take(j + 1)[k] == c);
                        }
                        if c == cat {
                            assert(rule.categories@.take(j + 1)[j as int] == c);
                        }
                    }
                    j += 1;
                }
                assert(rule.categories@.take(j as int) =~= rule.categories@);
            }
            i += 1;
        }
        assert(self.rules@.take(i as int) =~= self.rules@);
        detailed
    }

    /// The device with its status in each category: for each category, that
    /// of the last loaded rule that applies to the device's codename and
    /// lists the category; none where no such rule exists.
    pub fn resolve(&self, device: Device) -> (r: Detailed<Device>)
        ensures
            r.item == device,
            forall|c: Category| #[trigger] r.slot(c) == resolved(self@, device.codename@, c),
            r.secure_boot == resolved(self@, device.codename@, Category::SecureBoot),
            r.hardware_keystore == resolved(self@, device.codename@, Category::HardwareKeystore),
            r.bfu_secure == resolved(self@, device.codename@, Category::BfuSecure),
            r.afu_secure == resolved(self@, device.codename@, Category::AfuSecure),
    {
        let applies = self.matching_rules(&device.codename);
        let ghost codename = device.codename@;
        let r = self.resolve_with(device, &applies);
        proof {
            assert forall|c: Category| #[trigger] r.slot(c) == resolved(self@, codename, c) by {
                lemma_resolved_with_matches(self@, applies@, codename, c);
            }
            assert(r.slot(Category::SecureBoot) == r.secure_boot);
            assert(r.slot(Category::HardwareKeystore) == r.hardware_keystore);
            assert(r.slot(Category::BfuSecure) == r.bfu_secure);
            assert(r.slot(Category::AfuSecure) == r.afu_secure);
        }
        r
    }
}

/// Whether a file of this name holds rules: its extension (as
/// `Path::extension` reads it) is `toml`, that is, the name ends in `.toml`
/// with at least one character before that.
pub open spec fn is_rules_file_name_spec(name: Seq<char>) -> bool {
    name.len() > 5 && name.subrange(name.len() - 5, name.len() as int) == seq!['.', 't', 'o', 'm', 'l']
}

/// Whether a directory entry of this name is read as a rules file.
pub fn is_rules_file_name(name: &str) -> (r: bool)
    ensures
        r == is_rules_file_name_spec(name@),
{
    let cs = crate::text::chars_of(name);
    let n = cs.len();
    if n <= 5 {
        return false;
    }
    let r = cs[n - 5] == '.' && cs[n - 4] == 't' && cs[n - 3] == 'o' && cs[n - 2] == 'm' && cs[n - 1] == 'l';
    assert(r == (name@.subrange(n - 5, n as int) =~= seq!['.', 't', 'o', 'm', 'l']));
    r
}


/// Whether rule `i` of `rules` applies to `codename` and lists `c`.
pub open spec fn settles(rules: Seq<Rule>, i: int, codename: Seq<char>, c: Category) -> bool {
    &&& exists|j: int|
        0 <= j < rules[i].devices@.len() && glob_pattern_matches((#[trigger] rules[i].devices@[j])@, codename)
    &&& rules[i].categories@.contains(c)
}

/// The status that a device gets for a category is exactly the class,
/// conclusion and reference of the last rule that applies to it and lists
/// the category; it gets none where no rule does.
pub proof fn lemma_resolved_is_last_settling_rule(rules: Seq<Rule>, codename: Seq<char>, c: Category)
    ensures
        match resolved(rules, codename, c) {
            Some(st) => exists|i: int|
                0 <= i < rules.len() && #[trigger] settles(rules, i, codename, c)
                    && st == (Status { class: rules[i].class, conclusion: rules[i].conclusion, reference: rules[i].reference })
                    && forall|j: int| i < j < rules.len() ==> !#[trigger] settles(rules, j, codename, c),
            None => forall|i: int| 0 <= i < rules.len() ==> !#[trigger] settles(rules, i, codename, c),
        },
    decreases rules.len(),
{
    if rules.len() > 0 {
        let n = rules.len() - 1;
        let shorter = rules.drop_last();
        lemma_resolved_is_last_settling_rule(shorter, codename, c);
        assert forall|i: int| 0 <= i < n implies settles(rules, i, codename, c) == settles(shorter, i, codename, c) by {
            assert(rules[i] == shorter[i]);
        }
        if settles(rules, n, codename, c) {
            assert(rules.last() == rules[n]);
        } else {
            match resolved(shorter, codename, c) {
                Some(st) => {
                    let i = choose|i: int|
                        0 <= i < shorter.len() && #[trigger] settles(shorter, i, codename, c)
                            && st == (Status { class: shorter[i].class, conclusion: shorter[i].conclusion, reference: shorter[i].reference })
                            && forall|j: int| i < j < shorter.len() ==> !#[trigger] settles(shorter, j, codename, c);
                    assert(settles(rules, i, codename, c));
                    assert(rules[i] == shorter[i]);
                },
                None => {},
            }
        }
    }
}

/// Whether rule `i` is marked as applying and lists `c`.
pub open spec fn settles_marked(rules: Seq<Rule>, applies: Seq<bool>, i: int, c: Category) -> bool {
    i < applies.len() && applies[i] && rules[i].categories@.contains(c)
}

/// Given the marks of the applying rules, a category gets exactly the
/// class, conclusion and reference of the last marked rule that lists it,
/// and none where no marked rule lists it.
pub proof fn lemma_resolved_with_is_last_marked_rule(rules: Seq<Rule>, applies: Seq<bool>, c: Category)
    ensures
        match resolved_with(rules, applies, c) {
            Some(st) => exists|i: int|
                0 <= i < rules.len() && #[trigger] settles_marked(rules, applies, i, c)
                    && st == (Status { class: rules[i].class, conclusion: rules[i].conclusion, reference: rules[i].reference })
                    && forall|j: int| i < j < rules.len() ==> !#[trigger] settles_marked(rules, applies, j, c),
            None => forall|i: int| 0 <= i < rules.len() ==> !#[trigger] settles_marked(rules, applies, i, c),
        },
    decreases rules.len(),
{
    if rules.len() > 0 {
        let n = rules.len() - 1;
        let shorter = rules.drop_last();
        lemma_resolved_with_is_last_marked_rule(shorter, applies, c);
        assert forall|i: int| 0 <= i < n implies settles_marked(rules, applies, i, c) == settles_marked(shorter, applies, i, c) by {
            assert(rules[i] == shorter[i]);
        }
        if settles_marked(rules, applies, n, c) {
            assert(rules.last() == rules[n]);
        } else {
            match resolved_with(shorter, applies, c) {
                Some(st) => {
                    let i = choose|i: int|
                        0 <= i < shorter.len() && #[trigger] settles_marked(shorter, applies, i, c)
                            && st == (Status { class: shorter[i].class, conclusion: shorter[i].conclusion, reference: shorter[i].reference })
                            && forall|j: int| i < j < shorter.len() ==> !#[trigger] settles_marked(shorter, applies, j, c);
                    assert(settles_marked(rules, applies, i, c));
                    assert(rules[i] == shorter[i]);
                },
                None => {},
            }
        }
    }
}

/// The rules load only where every device pattern of every rule compiles.
pub proof fn lemma_patterns_valid_law(rules: Seq<Rule>)
    ensures
        patterns_valid(rules) <==> forall|i: int, j: int|
            0 <= i < rules.len() && 0 <= j < rules[i].devices@.len() ==> glob_compile_error(
                (#[trigger] rules[i].devices@[j])@,
            ) is None,
{
}

/// The status copied from a rule holds the rule's own class, conclusion and
/// reference.
pub proof fn lemma_status_of_copies_rule(rule: Rule)
    ensures
        status_of(rule).class == rule.class,
        status_of(rule).conclusion == rule.conclusion,
        status_of(rule).reference == rule.reference,
{
}

/// A file name is read as rules exactly where its extension, the part after
/// its last `.` when something precedes that dot, is `toml`.
pub proof fn lemma_rules_file_name_law(name: Seq<char>)
    ensures
        is_rules_file_name_spec(name) <==> exists|d: int|
            1 <= d < name.len() && #[trigger] name[d] == '.' && name.len() - d - 1 == 4 && name[d + 1] == 't'
                && name[d + 2] == 'o' && name[d + 3] == 'm' && name[d + 4] == 'l',
{
    if is_rules_file_name_spec(name) {
        let d = name.len() - 5;
        assert(name.subrange(d, name.len() as int)[0] == name[d]);
        assert(name.subrange(d, name.len() as int)[1] == name[d + 1]);
        assert(name.subrange(d, name.len() as int)[2] == name[d + 2]);
        assert(name.subrange(d, name.len() as int)[3] == name[d + 3]);
        assert(name.subrange(d, name.len() as int)[4] == name[d + 4]);
        assert(name[d] == '.');
    }
    if exists|d: int|
        1 <= d < name.len() && #[trigger] name[d] == '.' && name.len() - d - 1 == 4 && name[d + 1] == 't'
            && name[d + 2] == 'o' && name[d + 3] == 'm' && name[d + 4] == 'l' {
        let d = choose|d: int|
            1 <= d < name.len() && #[trigger] name[d] == '.' && name.len() - d - 1 == 4 && name[d + 1] == 't'
                && name[d + 2] == 'o' && name[d + 3] == 'm' && name[d + 4] == 'l';
        assert(name.subrange(name.len() - 5, name.len() as int) =~= seq!['.', 't', 'o', 'm', 'l']);
    }
}

/// Rules loaded later take precedence: with the rules `later` loaded after
/// `earlier`, a category gets the status that `later` alone would give it,
/// and the status from `earlier` only where `later` gives none.
pub proof fn lemma_later_rules_take_precedence(
    earlier: Seq<Rule>,
    later: Seq<Rule>,
    codename: Seq<char>,
    c: Category,
)
    ensures
        resolved(earlier + later, codename, c) == match resolved(later, codename, c) {
            Some(s) => Some(s),
            None => resolved(earlier, codename, c),
        },
    decreases later.len(),
{
    if later.len() == 0 {
        assert(earlier + later =~= earlier);
    } else {
        assert((earlier + later).drop_last() =~= earlier + later.drop_last());
        assert((earlier + later).last() == later.last());
        lemma_later_rules_take_precedence(earlier, later.drop_last(), codename, c);
    }
}

/// A rule that does not apply to a device leaves the device's statuses as
/// they were, wherever it stands among the rules.
pub proof fn lemma_rule_without_match_is_inert(
    before: Seq<Rule>,
    rule: Rule,
    after: Seq<Rule>,
    codename: Seq<char>,
    c: Category,
)
    requires
        !rule_applies(rule, codename),
    ensures
        resolved(before.push(rule) + after, codename, c) == resolved(before + after, codename, c),
{
    lemma_later_rules_take_precedence(before.push(rule), after, codename, c);
    lemma_later_rules_take_precedence(before, after, codename, c);
    assert(before.push(rule).drop_last() =~= before);
}

/// A rule settles only the categories it lists: for any other category the
/// status is the one the rules before it give.
pub proof fn lemma_rule_settles_only_its_categories(
    before: Seq<Rule>,
    rule: Rule,
    codename: Seq<char>,
    c: Category,
)
    requires
        !rule.categories@.contains(c),
    ensures
        resolved(before.push(rule), codename, c) == resolved(before, codename, c),
{
    assert(before.push(rule).drop_last() =~= before);
}

/// No rules, no status.
pub proof fn lemma_no_rules_no_status(codename: Seq<char>, c: Category)
    ensures
        resolved(Seq::<Rule>::empty(), codename, c) is None,
{
}

} // verus!
