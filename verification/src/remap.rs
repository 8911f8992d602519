//! Keystroke remapping: byte sequences typed by the user ("triggers") are
//! replaced by other byte sequences before they reach the session.
//!
//! Matching is longest-prefix and stateful: bytes that could still grow into
//! a longer trigger are held back until later input completes the trigger
//! or rules it out.
use vstd::prelude::*;
use vstd::string::*;

verus! {

/// One remapping rule as written in the configuration file.
#[derive(Debug, Clone)]
pub struct RemapRule {
    pub from: Vec<u8>,
    pub to: Vec<u8>,
}

pub open spec fn rule_pair(r: RemapRule) -> (Seq<u8>, Seq<u8>) {
    (r.from@, r.to@)
}

pub open spec fn rule_pairs(rs: Seq<RemapRule>) -> Seq<(Seq<u8>, Seq<u8>)> {
    rs.map_values(|r: RemapRule| rule_pair(r))
}

/// Adding one rule to a rule table; an empty trigger is ignored.
pub open spec fn insert_rule(m: Map<Seq<u8>, Seq<u8>>, t: Seq<u8>, x: Seq<u8>) -> Map<
    Seq<u8>,
    Seq<u8>,
> {
    if t.len() == 0 {
        m
    } else {
        m.insert(t, x)
    }
}

/// The rule table after adding the rules of `rs` to `m` in order.
pub open spec fn insert_rules(m: Map<Seq<u8>, Seq<u8>>, rs: Seq<(Seq<u8>, Seq<u8>)>) -> Map<
    Seq<u8>,
    Seq<u8>,
>
    decreases rs.len(),
{
    if rs.len() == 0 {
        m
    } else {
        insert_rule(insert_rules(m, rs.drop_last()), rs.last().0, rs.last().1)
    }
}

/// `s` is a proper prefix of some trigger: more input could complete it.
pub open spec fn extends_to_trigger(rules: Map<Seq<u8>, Seq<u8>>, s: Seq<u8>) -> bool {
    exists|t: Seq<u8>| #[trigger]
        rules.dom().contains(t) && s.len() < t.len() && t.take(s.len() as int) == s
}

/// The length of the longest trigger among the first `k` prefixes of `s`,
/// or 0 when none of them is a trigger.
pub open spec fn longest_match(rules: Map<Seq<u8>, Seq<u8>>, s: Seq<u8>, k: int) -> int
    decreases k,
{
    if k <= 0 {
        0
    } else if rules.dom().contains(s.take(k)) {
        k
    } else {
        longest_match(rules, s, k - 1)
    }
}

pub proof fn lemma_longest_match_props(rules: Map<Seq<u8>, Seq<u8>>, s: Seq<u8>, k: int)
    requires
        0 <= k,
    ensures
        0 <= longest_match(rules, s, k) <= k,
        longest_match(rules, s, k) > 0 ==> rules.dom().contains(
            s.take(longest_match(rules, s, k)),
        ),
        forall|m: int|
            longest_match(rules, s, k) < m <= k ==> !#[trigger] rules.dom().contains(s.take(m)),
    decreases k,
{
    if k > 0 && !rules.dom().contains(s.take(k)) {
        lemma_longest_match_props(rules, s, k - 1);
    }
}

proof fn lemma_longest_match_char(rules: Map<Seq<u8>, Seq<u8>>, s: Seq<u8>, k: int, m: int)
    requires
        0 <= m <= k,
        m == 0 || rules.dom().contains(s.take(m)),
        forall|j: int| m < j <= k ==> !#[trigger] rules.dom().contains(s.take(j)),
    ensures
        longest_match(rules, s, k) == m,
    decreases k,
{
    if k > m {
        assert(!rules.dom().contains(s.take(k)));
        lemma_longest_match_char(rules, s, k - 1, m);
    }
}

/// What remapping the byte sequence `s` produces: the bytes sent on, and
/// the tail held back because it could still become a trigger.
pub open spec fn translate_from(rules: Map<Seq<u8>, Seq<u8>>, s: Seq<u8>) -> (Seq<u8>, Seq<u8>)
    decreases s.len(),
{
    if s.len() == 0 {
        (Seq::empty(), Seq::empty())
    } else if extends_to_trigger(rules, s) {
        (Seq::empty(), s)
    } else {
        let k = longest_match(rules, s, s.len() as int);
        proof {
            lemma_longest_match_props(rules, s, s.len() as int);
        }
        if k > 0 {
            let r = translate_from(rules, s.skip(k));
            (rules[s.take(k)] + r.0, r.1)
        } else {
            let r = translate_from(rules, s.skip(1));
            (seq![s[0]] + r.0, r.1)
        }
    }
}

/// Remapping `s1 ++ s2` sends on what remapping `s1` sends, followed by what
/// remapping the held-back tail of `s1` followed by `s2` sends.
pub proof fn lemma_translate_concat(rules: Map<Seq<u8>, Seq<u8>>, s1: Seq<u8>, s2: Seq<u8>)
    ensures
        ({
            let (o1, p1) = translate_from(rules, s1);
            let (o2, p2) = translate_from(rules, p1 + s2);
            translate_from(rules, s1 + s2) == (o1 + o2, p2)
        }),
    decreases s1.len(),
{
    let s = s1 + s2;
    if s1.len() == 0 {
        assert(s =~= s2);
        assert(Seq::<u8>::empty() + s2 =~= s2);
        let (o2, p2) = translate_from(rules, s2);
        assert(Seq::<u8>::empty() + o2 =~= o2);
    } else if extends_to_trigger(rules, s1) {
        let (o2, p2) = translate_from(rules, s1 + s2);
        assert(Seq::<u8>::empty() + o2 =~= o2);
    } else {
        let k = longest_match(rules, s1, s1.len() as int);
        lemma_longest_match_props(rules, s1, s1.len() as int);
        // `s1 ++ s2` cannot grow into a trigger either
        if extends_to_trigger(rules, s) {
            let t = choose|t: Seq<u8>| #[trigger]
                rules.dom().contains(t) && s.len() < t.len() && t.take(s.len() as int) == s;
            assert(t.take(s1.len() as int) =~= s1);
            assert(false);
        }
        // and its longest trigger is that of `s1`
        assert forall|j: int| k < j <= s.len() implies !#[trigger] rules.dom().contains(
            s.take(j),
        ) by {
            if j <= s1.len() {
                assert(s.take(j) =~= s1.take(j));
            } else if rules.dom().contains(s.take(j)) {
                let t = s.take(j);
                assert(t.take(s1.len() as int) =~= s1);
                assert(extends_to_trigger(rules, s1));
            }
        }
        if k > 0 {
            assert(s.take(k) =~= s1.take(k));
        }
        lemma_longest_match_char(rules, s, s.len() as int, k);
        lemma_longest_match_props(rules, s, s.len() as int);
        let step = if k > 0 {
            k
        } else {
            1
        };
        assert(s.skip(step) =~= s1.skip(step) + s2);
        lemma_translate_concat(rules, s1.skip(step), s2);
        let (o1, p1) = translate_from(rules, s1.skip(step));
        let (o2, p2) = translate_from(rules, p1 + s2);
        if k > 0 {
            assert(s.take(k) =~= s1.take(k));
            assert(rules[s1.take(k)] + (o1 + o2) =~= (rules[s1.take(k)] + o1) + o2);
        } else {
            assert(s[0] == s1[0]);
            assert(seq![s1[0]] + (o1 + o2) =~= (seq![s1[0]] + o1) + o2);
        }
    }
}

/// Splitting input across calls of `translate` does not change what is sent
/// on: translating `a` and then `b` sends, in total, what translating
/// `a ++ b` in one call sends, and holds back the same bytes.
pub proof fn lemma_translate_chunking(
    rules: Map<Seq<u8>, Seq<u8>>,
    pending: Seq<u8>,
    a: Seq<u8>,
    b: Seq<u8>,
)
    ensures
        ({
            let (o1, p1) = translate_from(rules, pending + a);
            let (o2, p2) = translate_from(rules, p1 + b);
            translate_from(rules, pending + a + b) == (o1 + o2, p2)
        }),
{
    lemma_translate_concat(rules, pending + a, b);
}

/// With no rules, every byte is sent on unchanged and nothing is held back.
pub proof fn lemma_translate_without_rules(s: Seq<u8>)
    ensures
        translate_from(Map::<Seq<u8>, Seq<u8>>::empty(), s) == (s, Seq::<u8>::empty()),
    decreases s.len(),
{
    let rules = Map::<Seq<u8>, Seq<u8>>::empty();
    if s.len() > 0 {
        lemma_longest_match_char(rules, s, s.len() as int, 0);
        lemma_translate_without_rules(s.skip(1));
        assert(seq![s[0]] + s.skip(1) =~= s);
    }
}

/// A remapper without rules holds nothing back, so `translate` sends its
/// input on unchanged and still holds nothing back.
pub proof fn lemma_remapper_without_rules(r: InputRemapper, input: Seq<u8>)
    requires
        r.wf(),
        r.rules().dom().len() == 0,
    ensures
        r.pending() == Seq::<u8>::empty(),
        r.rules() == Map::<Seq<u8>, Seq<u8>>::empty(),
        translate_from(r.rules(), r.pending() + input) == (input, Seq::<u8>::empty()),
{
    r.lemma_without_rules();
    lemma_translate_without_rules(input);
    assert(Seq::<u8>::empty() + input =~= input);
}

/// A rule table without empty triggers and without a trigger listed twice.
pub open spec fn table_wf(t: Seq<(Seq<u8>, Seq<u8>)>) -> bool {
    &&& forall|i: int| 0 <= i < t.len() ==> (#[trigger] t[i]).0.len() > 0
    &&& forall|i: int, j: int|
        0 <= i < t.len() && 0 <= j < t.len() && i != j ==> (#[trigger] t[i]).0 != (#[trigger] t[j]).0
}

pub open spec fn table_map(t: Seq<(Seq<u8>, Seq<u8>)>) -> Map<Seq<u8>, Seq<u8>>
    decreases t.len(),
{
    if t.len() == 0 {
        Map::empty()
    } else {
        table_map(t.drop_last()).insert(t.last().0, t.last().1)
    }
}

proof fn lemma_table_map(t: Seq<(Seq<u8>, Seq<u8>)>)
    requires
        table_wf(t),
    ensures
        forall|i: int|
            0 <= i < t.len() ==> table_map(t).dom().contains((#[trigger] t[i]).0) && table_map(
                t,
            )[t[i].0] == t[i].1,
        forall|k: Seq<u8>| #[trigger]
            table_map(t).dom().contains(k) ==> exists|i: int| 0 <= i < t.len() && (#[trigger] t[i]).0 == k,
        table_map(t).dom().finite(),
        table_map(t).dom().len() == t.len(),
    decreases t.len(),
{
    if t.len() > 0 {
        let p = t.drop_last();
        assert(table_wf(p)) by {
            assert forall|i: int| 0 <= i < p.len() implies (#[trigger] p[i]).0.len() > 0 by {
                assert(p[i] == t[i]);
            }
            assert forall|i: int, j: int|
                0 <= i < p.len() && 0 <= j < p.len() && i != j implies (#[trigger] p[i]).0 != (
                #[trigger] p[j]).0 by {
                assert(p[i] == t[i] && p[j] == t[j]);
            }
        }
        lemma_table_map(p);
        let last = t.last();
        let n = t.len() - 1;
        assert forall|i: int| 0 <= i < t.len() implies table_map(t).dom().contains(
            (#[trigger] t[i]).0,
        ) && table_map(t)[t[i].0] == t[i].1 by {
            if i < n {
                assert(p[i] == t[i]);
                assert(t[i].0 != t[n].0);
            }
        }
        assert forall|k: Seq<u8>| #[trigger] table_map(t).dom().contains(k) implies exists|i: int|
            0 <= i < t.len() && (#[trigger] t[i]).0 == k by {
            if k != last.0 {
                assert(table_map(p).dom().contains(k));
                let i = choose|i: int| 0 <= i < p.len() && (#[trigger] p[i]).0 == k;
                assert(t[i] == p[i]);
            } else {
                assert(t[n].0 == k);
            }
        }
        assert(!table_map(p).dom().contains(last.0)) by {
            if table_map(p).dom().contains(last.0) {
                let i = choose|i: int| 0 <= i < p.len() && (#[trigger] p[i]).0 == last.0;
                assert(t[i] == p[i]);
                assert(t[i].0 != t[n].0);
            }
        }
    }
}

/// Replacing the target of the rule at `j` is inserting that rule anew.
proof fn lemma_table_map_update(t: Seq<(Seq<u8>, Seq<u8>)>, j: int, x: Seq<u8>)
    requires
        table_wf(t),
        0 <= j < t.len(),
    ensures
        table_wf(t.update(j, (t[j].0, x))),
        table_map(t.update(j, (t[j].0, x))) == table_map(t).insert(t[j].0, x),
{
    let u = t.update(j, (t[j].0, x));
    assert(table_wf(u)) by {
        assert forall|i: int| 0 <= i < u.len() implies (#[trigger] u[i]).0.len() > 0 by {
            assert(u[i].0 == t[i].0);
        }
        assert forall|a: int, b: int|
            0 <= a < u.len() && 0 <= b < u.len() && a != b implies (#[trigger] u[a]).0 != (
            #[trigger] u[b]).0 by {
            assert(u[a].0 == t[a].0 && u[b].0 == t[b].0);
        }
    }
    lemma_table_map(t);
    lemma_table_map(u);
    let m1 = table_map(u);
    let m2 = table_map(t).insert(t[j].0, x);
    assert forall|k: Seq<u8>| m1.dom().contains(k) <==> m2.dom().contains(k) by {
        if m1.dom().contains(k) {
            let i = choose|i: int| 0 <= i < u.len() && (#[trigger] u[i]).0 == k;
            assert(t[i].0 == k);
        }
        if m2.dom().contains(k) && k != t[j].0 {
            let i = choose|i: int| 0 <= i < t.len() && (#[trigger] t[i]).0 == k;
            assert(u[i].0 == k);
        }
        if k == t[j].0 {
            assert(u[j].0 == k);
        }
    }
    assert forall|k: Seq<u8>| m1.dom().contains(k) implies m1[k] == m2[k] by {
        let i = choose|i: int| 0 <= i < u.len() && (#[trigger] u[i]).0 == k;
        if i != j {
            assert(u[i] == t[i]);
            assert(t[i].0 != t[j].0);
        }
    }
    assert(m1 =~= m2);
}

/// The remapping state: a rule table and the bytes held back so far.
#[derive(Debug, Clone)]
pub struct InputRemapper {
    rules: Vec<RemapRule>,
    pending: Vec<u8>,
}

impl InputRemapper {
    spec fn table(&self) -> Seq<(Seq<u8>, Seq<u8>)> {
        rule_pairs(self.rules@)
    }

    /// The rule table is well formed: no empty trigger, no trigger twice,
    /// and nothing held back while there is no rule.
    pub closed spec fn wf(&self) -> bool {
        &&& table_wf(self.table())
        &&& self.rules@.len() == 0 ==> self.pending@.len() == 0
    }

    /// The rules: trigger byte sequences and what each one becomes.
    pub closed spec fn rules(&self) -> Map<Seq<u8>, Seq<u8>> {
        table_map(self.table())
    }

    proof fn lemma_without_rules(&self)
        requires
            self.wf(),
            self.rules().dom().len() == 0,
        ensures
            self.pending() == Seq::<u8>::empty(),
            self.rules() == Map::<Seq<u8>, Seq<u8>>::empty(),
    {
        lemma_table_map(self.table());
        assert(self.table().len() == 0);
        assert(self.rules@.len() == 0);
        assert(self.rules() =~= Map::<Seq<u8>, Seq<u8>>::empty());
    }

    /// The bytes held back because they may still grow into a trigger.
    pub closed spec fn pending(&self) -> Seq<u8> {
        self.pending@
    }

    pub fn new() -> (r: Self)
        ensures
            r.wf(),
            r.rules() == Map::<Seq<u8>, Seq<u8>>::empty(),
            r.rules().dom().finite(),
            r.pending() == Seq::<u8>::empty(),
    {
        let r = Self { rules: Vec::new(), pending: Vec::new() };
        assert(r.table() =~= Seq::<(Seq<u8>, Seq<u8>)>::empty());
        r
    }

    /// Adds a rule; a rule with the same trigger is replaced, and an empty
    /// trigger is ignored.
    pub fn insert(&mut self, trigger: &[u8], target: &[u8])
        requires
            old(self).wf(),
        ensures
            final(self).wf(),
            final(self).rules() == insert_rule(old(self).rules(), trigger@, target@),
            final(self).rules().dom().finite(),
            final(self).pending() == old(self).pending(),
    {
        proof {
            lemma_table_map(self.table());
        }
        if trigger.len() == 0 {
            return ;
        }
        let ghost t = self.table();
        let found = find_rule(self.rules.as_slice(), trigger);
        let new_to = slice_to_vec_u8(target);
        match found {
            Some(idx) => {
                let from = slice_to_vec_u8(self.rules[idx].from.as_slice());
                proof {
                    lemma_table_map_update(t, idx as int, target@);
                }
                self.rules.set(idx, RemapRule { from, to: new_to });
                assert(self.table() =~= t.update(idx as int, (t[idx as int].0, target@)));
            },
            None => {
                let from = slice_to_vec_u8(trigger);
                self.rules.push(RemapRule { from, to: new_to });
                assert(self.table() =~= t.push((trigger@, target@)));
                assert(self.table().drop_last() =~= t);
                assert(table_wf(self.table())) by {
                    let u = self.table();
                    assert forall|a: int, b: int|
                        0 <= a < u.len() && 0 <= b < u.len() && a != b implies (#[trigger] u[a]).0
                        != (#[trigger] u[b]).0 by {
                        if a < t.len() {
                            assert(u[a] == t[a]);
                            assert(t[a].0 == old(self).rules@[a].from@);
                        }
                        if b < t.len() {
                            assert(u[b] == t[b]);
                            assert(t[b].0 == old(self).rules@[b].from@);
                        }
                    }
                    assert forall|i: int| 0 <= i < u.len() implies (#[trigger] u[i]).0.len() > 0 by {
                        if i < t.len() {
                            assert(u[i] == t[i]);
                        }
                    }
                }
            },
        }
    }

    pub fn is_empty(&self) -> (b: bool)
        requires
            self.wf(),
        ensures
            b == (self.rules().dom().len() == 0),
    {
        proof {
            lemma_table_map(self.table());
        }
        self.rules.len() == 0
    }

    /// The number of distinct triggers.
    pub fn count_rules(&self) -> (n: usize)
        requires
            self.wf(),
        ensures
            n == self.rules().dom().len(),
    {
        proof {
            lemma_table_map(self.table());
        }
        self.rules.len()
    }

    /// Translates incoming raw input bytes using stateful longest-prefix
    /// matching. Bytes that form a proper prefix of a trigger are held back
    /// and nothing is returned for them until later bytes either complete
    /// the trigger or rule it out.
    pub fn translate(&mut self, input: &[u8]) -> (out: Vec<u8>)
        requires
            old(self).wf(),
        ensures
            final(self).wf(),
            (out@, final(self).pending()) == translate_from(
                old(self).rules(),
                old(self).pending() + input@,
            ),
            final(self).rules() == old(self).rules(),
    {
        proof {
            lemma_table_map(self.table());
        }
        if self.rules.len() == 0 {
            proof {
                assert(self.rules() =~= Map::<Seq<u8>, Seq<u8>>::empty());
                assert(self.pending@ + input@ =~= input@);
                lemma_translate_without_rules(input@);
            }
            return slice_to_vec_u8(input);
        }
        let ghost rules = self.rules();
        let ghost t = self.table();
        let mut k: usize = 0;
        while k < input.len()
            invariant
                k <= input@.len(),
                self.pending@ == old(self).pending@ + input@.take(k as int),
                self.rules == old(self).rules,
            decreases input@.len() - k,
        {
            self.pending.push(input[k]);
            k = k + 1;
            assert(self.pending@ =~= old(self).pending@ + input@.take(k as int));
        }
        assert(input@.take(input@.len() as int) =~= input@);
        let ghost s = self.pending@;
        let n = self.pending.len();
        let mut output: Vec<u8> = Vec::new();
        let mut i: usize = 0;
        proof {
            assert(s.skip(0) =~= s);
            let r = translate_from(rules, s);
            assert(output@ + r.0 =~= r.0);
        }
        while i < n
            invariant
                i <= n == s.len(),
                s == old(self).pending@ + input@,
                self.pending@ == s,
                self.rules == old(self).rules,
                t == rule_pairs(self.rules@),
                rules == table_map(t),
                table_wf(t),
                translate_from(rules, s) == (
                    output@ + translate_from(rules, s.skip(i as int)).0,
                    translate_from(rules, s.skip(i as int)).1,
                ),
            decreases n - i,
        {
            let ghost rest = s.skip(i as int);
            proof {
                lemma_table_map(t);
            }
            if has_extension(self.rules.as_slice(), self.pending.as_slice(), i) {
                proof {
                    let j = choose|j: int|
                        0 <= j < self.rules@.len() && rest.len() < self.rules@[j].from@.len()
                            && #[trigger] self.rules@[j].from@.take(rest.len() as int) == rest;
                    assert(t[j].0 == self.rules@[j].from@);
                    assert(extends_to_trigger(rules, rest));
                    assert(translate_from(rules, rest) == (Seq::<u8>::empty(), rest));
                    assert(output@ + Seq::<u8>::empty() =~= output@);
                }
                let tail = slice_to_vec_u8_from(self.pending.as_slice(), i);
                self.pending = tail;
                return output;
            }
            proof {
                if extends_to_trigger(rules, rest) {
                    let tt = choose|tt: Seq<u8>| #[trigger]
                        rules.dom().contains(tt) && rest.len() < tt.len() && tt.take(
                            rest.len() as int,
                        ) == rest;
                    let j = choose|j: int| 0 <= j < t.len() && (#[trigger] t[j]).0 == tt;
                    assert(self.rules@[j].from@ == tt);
                    assert(false);
                }
            }
            proof {
                assert forall|j: int| 0 <= j < self.rules@.len() implies (#[trigger] self.rules@[j]).from@.len() > 0 by {
                    assert(t[j].0 == self.rules@[j].from@);
                }
            }
            let (len, idx) = longest_at(self.rules.as_slice(), self.pending.as_slice(), i);
            proof {
                lemma_longest_match_props(rules, rest, rest.len() as int);
                assert forall|m: int| len < m <= rest.len() implies !#[trigger] rules.dom().contains(
                    rest.take(m),
                ) by {
                    if rules.dom().contains(rest.take(m)) {
                        let j = choose|j: int| 0 <= j < t.len() && (#[trigger] t[j]).0 == rest.take(
                            m,
                        );
                        assert(self.rules@[j].from@ == rest.take(m));
                        assert(self.rules@[j].from@.len() == m);
                        assert(self.pending@.skip(i as int).take(self.rules@[j].from@.len() as int)
                            == self.rules@[j].from@);
                    }
                }
                if len > 0 {
                    assert(t[idx as int].0 == self.rules@[idx as int].from@);
                }
                lemma_longest_match_char(rules, rest, rest.len() as int, len as int);
            }
            if len > 0 {
                let target = &self.rules[idx].to;
                proof {
                    assert(t[idx as int] == (self.rules@[idx as int].from@, target@));
                    assert(rules[rest.take(len as int)] == target@);
                    assert(rest.skip(len as int) =~= s.skip(i + len));
                    let r = translate_from(rules, s.skip(i + len));
                    assert(output@ + (target@ + r.0) =~= (output@ + target@) + r.0);
                }
                output.extend_from_slice(target.as_slice());
                i = i + len;
            } else {
                proof {
                    assert(rest.skip(1) =~= s.skip(i + 1));
                    assert(rest[0] == s[i as int]);
                    let r = translate_from(rules, s.skip(i + 1));
                    assert(output@ + (seq![s[i as int]] + r.0) =~= output@.push(s[i as int]) + r.0);
                }
                output.push(self.pending[i]);
                i = i + 1;
            }
        }
        proof {
            assert(s.skip(n as int) =~= Seq::<u8>::empty());
            assert(output@ + Seq::<u8>::empty() =~= output@);
        }
        self.pending = Vec::new();
        output
    }
}

impl Default for InputRemapper {
    fn default() -> (r: Self)
        ensures
            r.wf(),
            r.rules() == Map::<Seq<u8>, Seq<u8>>::empty(),
            r.pending() == Seq::<u8>::empty(),
    {
        Self::new()
    }
}

fn find_rule(rules: &[RemapRule], trigger: &[u8]) -> (r: Option<usize>)
    ensures
        r matches Some(j) ==> j < rules@.len() && rules@[j as int].from@ == trigger@,
        r is None ==> forall|i: int| 0 <= i < rules@.len() ==> (#[trigger] rules@[i]).from@ != trigger@,
{
    let mut j: usize = 0;
    while j < rules.len()
        invariant
            j <= rules@.len(),
            forall|i: int| 0 <= i < j ==> (#[trigger] rules@[i]).from@ != trigger@,
        decreases rules@.len() - j,
    {
        if bytes_eq(rules[j].from.as_slice(), trigger) {
            return Some(j);
        }
        j = j + 1;
    }
    None
}

fn bytes_eq(a: &[u8], b: &[u8]) -> (r: bool)
    ensures
        r == (a@ == b@),
{
    if a.len() != b.len() {
        return false;
    }
    let mut i: usize = 0;
    while i < a.len()
        invariant
            a@.len() == b@.len(),
            i <= a@.len(),
            forall|j: int| 0 <= j < i ==> a@[j] == b@[j],
        decreases a@.len() - i,
    {
        if a[i] != b[i] {
            return false;
        }
        i = i + 1;
    }
    assert(a@ =~= b@);
    true
}

pub(crate) fn slice_to_vec_u8(a: &[u8]) -> (v: Vec<u8>)
    ensures
        v@ == a@,
{
    slice_to_vec_u8_from(a, 0)
}

pub(crate) fn slice_to_vec_u8_from(a: &[u8], start: usize) -> (v: Vec<u8>)
    requires
        start <= a@.len(),
    ensures
        v@ == a@.skip(start as int),
{
    let mut v: Vec<u8> = Vec::new();
    let mut i = start;
    while i < a.len()
        invariant
            start <= i <= a@.len(),
            v@ == a@.subrange(start as int, i as int),
        decreases a@.len() - i,
    {
        v.push(a[i]);
        i = i + 1;
        assert(v@ =~= a@.subrange(start as int, i as int));
    }
    assert(a@.subrange(start as int, a@.len() as int) =~= a@.skip(start as int));
    v
}

/// `t` is a prefix of `s[i..]`.
fn is_prefix_at(t: &[u8], s: &[u8], i: usize) -> (r: bool)
    requires
        i <= s@.len(),
    ensures
        r == (t@.len() <= s@.len() - i && s@.skip(i as int).take(t@.len() as int) == t@),
{
    let sl = s.len();
    if t.len() > sl - i {
        return false;
    }
    let mut j: usize = 0;
    while j < t.len()
        invariant
            sl == s@.len(),
            i <= s@.len(),
            t@.len() <= s@.len() - i,
            j <= t@.len(),
            forall|q: int| 0 <= q < j ==> t@[q] == s@[i + q],
        decreases t@.len() - j,
    {
        if t[j] != s[i + j] {
            assert(s@.skip(i as int).take(t@.len() as int)[j as int] != t@[j as int]);
            return false;
        }
        j = j + 1;
    }
    assert(s@.skip(i as int).take(t@.len() as int) =~= t@);
    true
}

/// `s[i..]` is a proper prefix of `t`.
fn extends_at(t: &[u8], s: &[u8], i: usize) -> (r: bool)
    requires
        i <= s@.len(),
    ensures
        r == (s@.len() - i < t@.len() && t@.take(s@.len() - i) == s@.skip(i as int)),
{
    let sl = s.len();
    let rest = sl - i;
    if t.len() <= rest {
        return false;
    }
    let mut j: usize = 0;
    while j < rest
        invariant
            sl == s@.len(),
            i <= s@.len(),
            rest == s@.len() - i,
            rest < t@.len(),
            j <= rest,
            forall|q: int| 0 <= q < j ==> t@[q] == s@[i + q],
        decreases rest - j,
    {
        if t[j] != s[i + j] {
            assert(t@.take(rest as int)[j as int] != s@.skip(i as int)[j as int]);
            return false;
        }
        j = j + 1;
    }
    assert(t@.take(rest as int) =~= s@.skip(i as int));
    true
}

fn has_extension(rules: &[RemapRule], s: &[u8], i: usize) -> (r: bool)
    requires
        i <= s@.len(),
    ensures
        r == exists|j: int|
            0 <= j < rules@.len() && s@.len() - i < rules@[j].from@.len()
                && #[trigger] rules@[j].from@.take(s@.len() - i) == s@.skip(i as int),
{
    let mut j: usize = 0;
    while j < rules.len()
        invariant
            i <= s@.len(),
            j <= rules@.len(),
            forall|q: int|
                0 <= q < j ==> !(s@.len() - i < rules@[q].from@.len() && #[trigger] rules@[q].from@.take(
                    s@.len() - i,
                ) == s@.skip(i as int)),
        decreases rules@.len() - j,
    {
        if extends_at(rules[j].from.as_slice(), s, i) {
            return true;
        }
        j = j + 1;
    }
    false
}

/// The length of the longest trigger that `s[i..]` starts with (0 if none),
/// and the index of its rule.
fn longest_at(rules: &[RemapRule], s: &[u8], i: usize) -> (r: (usize, usize))
    requires
        i <= s@.len(),
        forall|j: int| 0 <= j < rules@.len() ==> (#[trigger] rules@[j]).from@.len() > 0,
    ensures
        r.0 <= s@.len() - i,
        r.0 > 0 ==> r.1 < rules@.len() && rules@[r.1 as int].from@ == s@.skip(i as int).take(
            r.0 as int,
        ),
        forall|j: int|
            0 <= j < rules@.len() && rules@[j].from@.len() <= s@.len() - i && #[trigger] s@.skip(
                i as int,
            ).take(rules@[j].from@.len() as int) == rules@[j].from@ ==> rules@[j].from@.len() <= r.0,
{
    let mut best: usize = 0;
    let mut best_idx: usize = 0;
    let mut j: usize = 0;
    while j < rules.len()
        invariant
            i <= s@.len(),
            j <= rules@.len(),
            best <= s@.len() - i,
            best > 0 ==> best_idx < rules@.len() && rules@[best_idx as int].from@ == s@.skip(
                i as int,
            ).take(best as int),
            forall|q: int|
                0 <= q < j && rules@[q].from@.len() <= s@.len() - i && #[trigger] s@.skip(
                    i as int,
                ).take(rules@[q].from@.len() as int) == rules@[q].from@ ==> rules@[q].from@.len()
                    <= best,
        decreases rules@.len() - j,
    {
        let from = rules[j].from.as_slice();
        if is_prefix_at(from, s, i) && from.len() > best {
            best = from.len();
            best_idx = j;
        }
        j = j + 1;
    }
    (best, best_idx)
}

/// The `[menu]` table of the remapping configuration file.
pub struct MenuConfig {
    pub key: Option<String>,
    pub command: Option<String>,
}

/// The `[session]` table of the remapping configuration file.
pub struct SessionConfig {
    pub scrollback: usize,
}

pub fn default_scrollback() -> (n: usize)
    ensures
        n == 10_000,
{
    10_000
}

impl Default for SessionConfig {
    fn default() -> (r: Self)
        ensures
            r.scrollback == 10_000,
    {
        Self { scrollback: 10_000 }
    }
}

/// The remapping configuration file: menu settings, remapping rules and
/// session settings.
pub struct Config {
    pub menu: MenuConfig,
    pub remap: Vec<RemapRule>,
    pub session: SessionConfig,
}

impl Config {
    /// The menu trigger key as written, `"0x1d"` when absent.
    pub fn menu_key(&self) -> (s: String)
        ensures
            s@ == match self.menu.key {
                Some(k) => k@,
                None => "0x1d"@,
            },
    {
        match &self.menu.key {
            Some(k) => k.clone(),
            None => String::from_str("0x1d"),
        }
    }

    /// The menu command, `"echo detach"` when absent.
    pub fn menu_command(&self) -> (s: String)
        ensures
            s@ == match self.menu.command {
                Some(c) => c@,
                None => "echo detach"@,
            },
    {
        match &self.menu.command {
            Some(c) => c.clone(),
            None => String::from_str("echo detach"),
        }
    }

    /// The scrollback length; a zero setting falls back to 10,000.
    pub fn scrollback(&self) -> (n: usize)
        ensures
            n == if self.session.scrollback > 0 {
                self.session.scrollback
            } else {
                10_000
            },
    {
        if self.session.scrollback > 0 {
            self.session.scrollback
        } else {
            10_000
        }
    }

    /// A remapper holding the configured rules, added in order; `None` when
    /// the configuration lists no rule.
    pub fn to_remapper(&self) -> (r: Option<InputRemapper>)
        ensures
            self.remap@.len() == 0 ==> r is None,
            self.remap@.len() > 0 ==> (r matches Some(rm) && rm.wf() && rm.rules() == insert_rules(
                Map::empty(),
                rule_pairs(self.remap@),
            ) && rm.pending() == Seq::<u8>::empty()),
    {
        if self.remap.len() == 0 {
            return None;
        }
        let mut remapper = InputRemapper::new();
        let mut i: usize = 0;
        while i < self.remap.len()
            invariant
                i <= self.remap@.len(),
                remapper.wf(),
                remapper.rules() == insert_rules(Map::empty(), rule_pairs(self.remap@.take(i as int))),
                remapper.pending() == Seq::<u8>::empty(),
            decreases self.remap@.len() - i,
        {
            remapper.insert(self.remap[i].from.as_slice(), self.remap[i].to.as_slice());
            proof {
                let p = rule_pairs(self.remap@.take(i + 1));
                assert(p.drop_last() =~= rule_pairs(self.remap@.take(i as int)));
            }
            i = i + 1;
        }
        assert(self.remap@.take(self.remap@.len() as int) =~= self.remap@);
        Some(remapper)
    }
}

impl Default for MenuConfig {
    fn default() -> (r: Self)
        ensures
            r.key is None,
            r.command is None,
    {
        Self { key: None, command: None }
    }
}

impl Default for Config {
    fn default() -> (r: Self)
        ensures
            r.menu.key is None,
            r.menu.command is None,
            r.remap@.len() == 0,
            r.session.scrollback == 10_000,
    {
        Self { menu: MenuConfig::default(), remap: Vec::new(), session: SessionConfig::default() }
    }
}

/// Which remapping configuration to load, and loading it: the explicit
/// path when one is given, else the default path when that file exists,
/// else none. A load error is passed on.
pub fn resolve_initial_config<E, X: Fn(&str) -> bool, L: Fn(&str) -> Result<InputRemapper, E>>(
    config_arg: Option<&str>,
    default_path: Option<&str>,
    is_file: X,
    load: L,
) -> (r: Result<(Option<InputRemapper>, Option<String>), E>)
    requires
        forall|p: &str| is_file.requires((p,)),
        forall|p: &str| load.requires((p,)),
    ensures
        match config_arg {
            Some(p) => match r {
                Ok((Some(rm), Some(path))) => path@ == p@ && load.ensures((p,), Ok::<InputRemapper, E>(rm)),
                Ok(_) => false,
                Err(e) => load.ensures((p,), Err::<InputRemapper, E>(e)),
            },
            None => true,
        },
        config_arg is None && default_path is None ==> r matches Ok((None, None)),
        forall|d: &str| config_arg is None && default_path == Some(d) ==> {
            ||| (is_file.ensures((d,), false) && r matches Ok((None, None)))
            ||| (is_file.ensures((d,), true) && match r {
                Ok((Some(rm), Some(path))) => path@ == d@ && load.ensures((d,), Ok::<InputRemapper, E>(rm)),
                Ok(_) => false,
                Err(e) => load.ensures((d,), Err::<InputRemapper, E>(e)),
            })
        },
{
    match config_arg {
        Some(path) => match load(path) {
            Ok(remapper) => Ok((Some(remapper), Some(String::from_str(path)))),
            Err(e) => Err(e),
        },
        None => match default_path {
            Some(def_path) => {
                if is_file(def_path) {
                    match load(def_path) {
                        Ok(remapper) => Ok((Some(remapper), Some(String::from_str(def_path)))),
                        Err(e) => Err(e),
                    }
                } else {
                    Ok((None, None))
                }
            },
            None => Ok((None, None)),
        },
    }
}

} // verus!
