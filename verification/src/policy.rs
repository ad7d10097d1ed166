//! Directory of fictive identities, RBAC/ACL policy and its consistency rules.
//!
//! The directory owns groups; the policy maps groups to application roles and
//! lists, for each resource, the roles it admits. Access is denied by default.
use crate::text::{
    has_prefix, has_suffix, safe_relative_chars, same_text, spec_safe_relative, spec_valid_id,
    chars_of, starts_with, ends_with,
};
pub use crate::text::valid_id;
use vstd::prelude::*;

verus! {

#[derive(Debug, Clone)]
pub struct IdentityDefinition {
    pub id: String,
    pub display_name: String,
    pub groups: Vec<String>,
}

#[derive(Debug, Clone)]
pub struct Directory {
    pub issuer: String,
    pub audience: String,
    pub token_ttl_seconds: u64,
    pub identities: Vec<IdentityDefinition>,
}

#[derive(Debug, Clone)]
pub struct Resource {
    pub id: String,
    pub classification: String,
    pub path: String,
    pub allowed_roles: Vec<String>,
}

#[derive(Debug, Clone)]
pub struct Role {
    pub id: String,
}

#[derive(Debug, Clone)]
pub struct GroupRole {
    pub group: String,
    pub role: String,
}

#[derive(Debug, Clone)]
pub struct PolicyIdentity {
    pub id: String,
    pub display_name: String,
    pub roles: Vec<String>,
}

#[derive(Debug, Clone)]
pub struct Policy {
    pub default_decision: String,
    pub roles: Vec<Role>,
    pub group_role_mappings: Vec<GroupRole>,
    pub identities: Vec<PolicyIdentity>,
    pub resources: Vec<Resource>,
}

/// An identity whose claims matched the directory. Only `Directory::validate_claims`
/// builds one; its fields cannot be set from outside this module.
#[derive(Debug, Clone)]
pub struct VerifiedIdentity {
    id: String,
    groups: Vec<String>,
}

/// The texts of a list of strings.
pub open spec fn texts(v: Seq<String>) -> Seq<Seq<char>> {
    v.map_values(|s: String| s@)
}

/// `v` holds a string equal to `s`.
pub open spec fn has_text(v: Seq<String>, s: Seq<char>) -> bool {
    exists|i: int| 0 <= i < v.len() && (#[trigger] v[i])@ == s
}

/// A non-empty list of non-empty strings, none occurring twice.
pub open spec fn spec_unique_nonempty(v: Seq<String>) -> bool {
    &&& v.len() > 0
    &&& forall|i: int| 0 <= i < v.len() ==> (#[trigger] v[i])@.len() > 0
    &&& forall|i: int, j: int| 0 <= i < j < v.len() ==> (#[trigger] v[i])@ != (#[trigger] v[j])@
}

impl VerifiedIdentity {
    pub closed spec fn spec_id(&self) -> Seq<char> {
        self.id@
    }

    pub closed spec fn spec_groups(&self) -> Seq<String> {
        self.groups@
    }

    pub fn id(&self) -> (r: &str)
        ensures
            r@ == self.spec_id(),
    {
        self.id.as_str()
    }

    pub fn groups(&self) -> (r: &[String])
        ensures
            r@ == self.spec_groups(),
    {
        self.groups.as_slice()
    }
}

/// The first identity of `s` with the given identifier.
pub open spec fn find_identity(s: Seq<IdentityDefinition>, id: Seq<char>) -> Option<
    IdentityDefinition,
>
    decreases s.len(),
{
    if s.len() == 0 {
        None
    } else if s[0].id@ == id {
        Some(s[0])
    } else {
        find_identity(s.drop_first(), id)
    }
}

/// The first resource of `s` with the given identifier.
pub open spec fn find_resource(s: Seq<Resource>, id: Seq<char>) -> Option<Resource>
    decreases s.len(),
{
    if s.len() == 0 {
        None
    } else if s[0].id@ == id {
        Some(s[0])
    } else {
        find_resource(s.drop_first(), id)
    }
}

/// The role that the first mapping of `group` gives.
pub open spec fn mapped_role(ms: Seq<GroupRole>, group: Seq<char>) -> Option<Seq<char>>
    decreases ms.len(),
{
    if ms.len() == 0 {
        None
    } else if ms[0].group@ == group {
        Some(ms[0].role@)
    } else {
        mapped_role(ms.drop_first(), group)
    }
}

/// Whether `v` and `w` hold the same strings, regardless of order and repetition.
pub fn same_string_sets(v: &[String], w: &[String]) -> (r: bool)
    ensures
        r == (forall|s: Seq<char>| has_text(v@, s) <==> has_text(w@, s)),
{
    for i in 0..v.len()
        invariant
            forall|k: int| 0 <= k < i ==> has_text(w@, (#[trigger] v@[k])@),
    {
        if !contains_text(w, v[i].as_str()) {
            assert(has_text(v@, v@[i as int]@));
            return false;
        }
    }
    for i in 0..w.len()
        invariant
            forall|k: int| 0 <= k < v@.len() ==> has_text(w@, (#[trigger] v@[k])@),
            forall|k: int| 0 <= k < i ==> has_text(v@, (#[trigger] w@[k])@),
    {
        if !contains_text(v, w[i].as_str()) {
            assert(has_text(w@, w@[i as int]@));
            return false;
        }
    }
    assert forall|s: Seq<char>| has_text(v@, s) <==> has_text(w@, s) by {
        if has_text(v@, s) {
            let k = choose|k: int| 0 <= k < v@.len() && (#[trigger] v@[k])@ == s;
            assert(has_text(w@, v@[k]@));
        }
        if has_text(w@, s) {
            let k = choose|k: int| 0 <= k < w@.len() && (#[trigger] w@[k])@ == s;
            assert(has_text(v@, w@[k]@));
        }
    }
    true
}

/// Whether `v` holds a string equal to `s`.
pub fn contains_text(v: &[String], s: &str) -> (r: bool)
    ensures
        r == has_text(v@, s@),
{
    for i in 0..v.len()
        invariant
            forall|k: int| 0 <= k < i ==> (#[trigger] v@[k])@ != s@,
    {
        if same_text(v[i].as_str(), s) {
            return true;
        }
    }
    false
}

/// Whether the list is non-empty, holds no empty string and no string twice.
pub fn unique_nonempty(values: &[String]) -> (r: bool)
    ensures
        r == spec_unique_nonempty(values@),
{
    if values.len() == 0 {
        return false;
    }
    for i in 0..values.len()
        invariant
            values@.len() > 0,
            forall|k: int| 0 <= k < i ==> (#[trigger] values@[k])@.len() > 0,
            forall|a: int, b: int|
                0 <= a < b < i ==> (#[trigger] values@[a])@ != (#[trigger] values@[b])@,
    {
        if values[i].as_str().is_empty() {
            return false;
        }
        for j in 0..i
            invariant
                i < values@.len(),
                forall|a: int| 0 <= a < j ==> (#[trigger] values@[a])@ != values@[i as int]@,
        {
            if same_text(values[j].as_str(), values[i].as_str()) {
                return false;
            }
        }
    }
    true
}

impl Directory {
    /// The first identity of the directory with the given identifier.
    pub fn identity(&self, id: &str) -> (r: Option<&IdentityDefinition>)
        ensures
            match r {
                Some(e) => find_identity(self.identities@, id@) == Some(*e),
                None => find_identity(self.identities@, id@) is None,
            },
    {
        let ghost s = self.identities@;
        assert(s.skip(0) == s);
        for i in 0..self.identities.len()
            invariant
                s == self.identities@,
                find_identity(s, id@) == find_identity(s.skip(i as int), id@),
        {
            assert(s.skip(i as int).drop_first() == s.skip(i + 1));
            if same_text(self.identities[i].id.as_str(), id) {
                return Some(&self.identities[i]);
            }
        }
        None
    }

    /// The identity that the directory gives to a subject claiming exactly `groups`.
    pub open spec fn spec_validate_claims(&self, id: Seq<char>, groups: Seq<String>) -> Option<
        (Seq<char>, Seq<Seq<char>>),
    > {
        match find_identity(self.identities@, id) {
            None => None,
            Some(e) => if texts(e.groups@) == texts(groups) {
                Some((id, texts(groups)))
            } else {
                None
            },
        }
    }

    /// Checks claimed subject and groups against the directory: the subject must be
    /// listed and its groups must be exactly the directory's, in the same order.
    pub fn validate_claims(&self, id: &str, groups: &[String]) -> (r: Option<VerifiedIdentity>)
        ensures
            match self.spec_validate_claims(id@, groups@) {
                None => r is None,
                Some((i, g)) => r matches Some(v) && v.spec_id() == i && texts(v.spec_groups())
                    == g,
            },
    {
        let entry = match self.identity(id) {
            Some(e) => e,
            None => return None,
        };
        if !same_strings(&entry.groups, groups) {
            return None;
        }
        let copied = copy_strings(groups);
        Some(VerifiedIdentity { id: crate::text::string_of(chars_of(id).as_slice()), groups: copied })
    }
}

/// Whether two lists of strings are equal element by element.
pub fn same_strings(v: &[String], w: &[String]) -> (r: bool)
    ensures
        r == (texts(v@) == texts(w@)),
{
    if v.len() != w.len() {
        assert(texts(v@).len() != texts(w@).len());
        return false;
    }
    for i in 0..v.len()
        invariant
            v@.len() == w@.len(),
            forall|k: int| 0 <= k < i ==> (#[trigger] v@[k])@ == w@[k]@,
    {
        if !same_text(v[i].as_str(), w[i].as_str()) {
            assert(texts(v@)[i as int] != texts(w@)[i as int]);
            return false;
        }
    }
    assert(texts(v@) =~= texts(w@));
    true
}

/// A copy of a list of strings.
pub fn copy_strings(v: &[String]) -> (r: Vec<String>)
    ensures
        r@ == v@,
{
    let mut r: Vec<String> = Vec::new();
    for i in 0..v.len()
        invariant
            r@ == v@.take(i as int),
    {
        r.push(v[i].clone());
        assert(r@ =~= v@.take(i + 1));
    }
    assert(v@.take(v.len() as int) == v@);
    r
}


/// The first mapping role of `group`.
pub fn mapping_role<'a>(ms: &'a [GroupRole], group: &str) -> (r: Option<&'a String>)
    ensures
        match r {
            Some(x) => mapped_role(ms@, group@) == Some(x@),
            None => mapped_role(ms@, group@) is None,
        },
{
    let ghost s = ms@;
    assert(s.skip(0) == s);
    for i in 0..ms.len()
        invariant
            s == ms@,
            mapped_role(s, group@) == mapped_role(s.skip(i as int), group@),
    {
        assert(s.skip(i as int).drop_first() == s.skip(i + 1));
        if same_text(ms[i].group.as_str(), group) {
            return Some(&ms[i].role);
        }
    }
    None
}

/// The number of policy identities with the given identifier.
pub open spec fn count_identity(ps: Seq<PolicyIdentity>, id: Seq<char>) -> nat
    decreases ps.len(),
{
    if ps.len() == 0 {
        0
    } else {
        count_identity(ps.drop_last(), id) + if ps.last().id@ == id {
            1nat
        } else {
            0nat
        }
    }
}

/// The first policy identity with the given identifier.
pub open spec fn find_policy_identity(ps: Seq<PolicyIdentity>, id: Seq<char>) -> Option<
    PolicyIdentity,
>
    decreases ps.len(),
{
    if ps.len() == 0 {
        None
    } else if ps[0].id@ == id {
        Some(ps[0])
    } else {
        find_policy_identity(ps.drop_first(), id)
    }
}

impl Policy {
    pub open spec fn role_ids(&self) -> Seq<String> {
        self.roles@.map_values(|r: Role| r.id)
    }

    /// The policy declares the role `r`.
    pub open spec fn has_role(&self, r: Seq<char>) -> bool {
        has_text(self.role_ids(), r)
    }

    /// Some mapping maps the directory group `g`.
    pub open spec fn group_known(&self, g: Seq<char>) -> bool {
        exists|m: int|
            0 <= m < self.group_role_mappings@.len() && (#[trigger] self.group_role_mappings@[m]).group@ == g
    }

    /// A verified identity with these groups holds a role that `resource` admits.
    pub open spec fn spec_permits(&self, groups: Seq<String>, resource: Resource) -> bool {
        exists|g: int, m: int|
            #![trigger groups[g], self.group_role_mappings@[m]]
            0 <= g < groups.len() && 0 <= m < self.group_role_mappings@.len()
                && self.group_role_mappings@[m].group@ == groups[g]@ && has_text(
                resource.allowed_roles@,
                self.group_role_mappings@[m].role@,
            )
    }

    /// The resources of `rs` that an identity with these groups may access, in order.
    pub open spec fn permitted(&self, groups: Seq<String>, rs: Seq<Resource>) -> Seq<Resource>
        decreases rs.len(),
    {
        if rs.len() == 0 {
            seq![]
        } else {
            let prev = self.permitted(groups, rs.drop_last());
            if self.spec_permits(groups, rs.last()) {
                prev.push(rs.last())
            } else {
                prev
            }
        }
    }

    /// Default decision, directory header and non-empty lists.
    pub open spec fn defaults_ok(&self, d: Directory) -> bool {
        &&& self.default_decision@ == "deny"@
        &&& d.issuer@.len() > 0
        &&& d.audience@.len() > 0
        &&& d.token_ttl_seconds == 900
        &&& d.identities@.len() > 0
        &&& self.resources@.len() > 0
    }

    /// The `k`-th mapping has a group, maps it to a declared role and is its group's first.
    pub open spec fn mapping_ok(&self, k: int) -> bool {
        let m = self.group_role_mappings@[k];
        &&& m.group@.len() > 0
        &&& self.has_role(m.role@)
        &&& forall|j: int| 0 <= j < k ==> (#[trigger] self.group_role_mappings@[j]).group@ != m.group@
    }

    pub open spec fn mappings_ok(&self) -> bool {
        forall|k: int| 0 <= k < self.group_role_mappings@.len() ==> #[trigger] self.mapping_ok(k)
    }

    /// The `k`-th directory entry is well formed on its own.
    pub open spec fn entry_valid(&self, d: Directory, k: int) -> bool {
        let e = d.identities@[k];
        &&& spec_valid_id(e.id@)
        &&& e.display_name@.len() > 0
        &&& spec_unique_nonempty(e.groups@)
        &&& forall|j: int| 0 <= j < k ==> (#[trigger] d.identities@[j]).id@ != e.id@
        &&& forall|g: int| 0 <= g < e.groups@.len() ==> self.group_known((#[trigger] e.groups@[g])@)
    }

    /// The `k`-th directory entry has exactly one policy identity, which agrees with it.
    pub open spec fn entry_matches(&self, d: Directory, k: int) -> bool {
        let e = d.identities@[k];
        &&& count_identity(self.identities@, e.id@) == 1
        &&& find_policy_identity(self.identities@, e.id@) matches Some(p) && p.display_name@
            == e.display_name@ && spec_unique_nonempty(p.roles@)
    }

    /// The roles of the `k`-th entry's groups are exactly its policy identity's roles.
    pub open spec fn entry_roles_agree(&self, d: Directory, k: int) -> bool {
        let e = d.identities@[k];
        let p = find_policy_identity(self.identities@, e.id@)->0;
        forall|r: Seq<char>|
            (exists|g: int|
                0 <= g < e.groups@.len() && mapped_role(self.group_role_mappings@, (#[trigger] e.groups@[g])@)
                    == Some(r)) <==> has_text(p.roles@, r)
    }

    /// The outcome of the directory checks from entry `k` on: the first refusal, if any.
    pub open spec fn entries_from(&self, d: Directory, k: int) -> Option<Seq<char>>
        decreases d.identities@.len() - k,
    {
        if k < 0 || k >= d.identities@.len() {
            None
        } else if !self.entry_valid(d, k) {
            Some("invalid directory identity"@)
        } else if !self.entry_matches(d, k) {
            Some("policy and directory identity mismatch"@)
        } else if !self.entry_roles_agree(d, k) {
            Some("policy and directory roles mismatch"@)
        } else {
            self.entries_from(d, k + 1)
        }
    }

    /// The `k`-th resource is well formed and its path stays under `demo-documents/`.
    pub open spec fn resource_ok(&self, k: int) -> bool {
        let r = self.resources@[k];
        &&& spec_valid_id(r.id@)
        &&& forall|j: int| 0 <= j < k ==> (#[trigger] self.resources@[j]).id@ != r.id@
        &&& (r.classification@ == "PUBLIC"@ || r.classification@ == "RH"@ || r.classification@
            == "IT"@)
        &&& spec_unique_nonempty(r.allowed_roles@)
        &&& forall|a: int| 0 <= a < r.allowed_roles@.len() ==> self.has_role((#[trigger] r.allowed_roles@[a])@)
        &&& has_prefix(r.path@, "demo-documents/"@)
        &&& has_suffix(r.path@, ".md"@)
        &&& spec_safe_relative(r.path@)
    }

    pub open spec fn resources_ok(&self) -> bool {
        forall|k: int| 0 <= k < self.resources@.len() ==> #[trigger] self.resource_ok(k)
    }

    /// The refusal that validation gives, or `None` for a consistent policy and directory.
    pub open spec fn spec_validate(&self, d: Directory) -> Option<Seq<char>> {
        if !self.defaults_ok(d) {
            Some("invalid policy/directory defaults"@)
        } else if !spec_unique_nonempty(self.role_ids()) {
            Some("invalid roles"@)
        } else if !self.mappings_ok() {
            Some("invalid group mapping"@)
        } else if self.entries_from(d, 0) is Some {
            self.entries_from(d, 0)
        } else if self.identities@.len() != d.identities@.len() {
            Some("identity count mismatch"@)
        } else if !self.resources_ok() {
            Some("invalid resource"@)
        } else {
            None
        }
    }

    /// The first resource with the given identifier.
    pub fn resource(&self, id: &str) -> (r: Option<&Resource>)
        ensures
            match r {
                Some(x) => find_resource(self.resources@, id@) == Some(*x),
                None => find_resource(self.resources@, id@) is None,
            },
    {
        let ghost s = self.resources@;
        assert(s.skip(0) == s);
        for i in 0..self.resources.len()
            invariant
                s == self.resources@,
                find_resource(s, id@) == find_resource(s.skip(i as int), id@),
        {
            assert(s.skip(i as int).drop_first() == s.skip(i + 1));
            if same_text(self.resources[i].id.as_str(), id) {
                return Some(&self.resources[i]);
            }
        }
        None
    }

    /// Whether one of the identity's groups maps to a role that the resource admits.
    pub fn permits(&self, identity: &VerifiedIdentity, resource: &Resource) -> (r: bool)
        ensures
            r == self.spec_permits(identity.spec_groups(), *resource),
    {
        let groups = identity.groups();
        let ms = &self.group_role_mappings;
        for g in 0..groups.len()
            invariant
                groups@ == identity.spec_groups(),
                ms@ == self.group_role_mappings@,
                forall|a: int, m: int|
                    #![trigger groups@[a], ms@[m]]
                    0 <= a < g && 0 <= m < ms@.len() ==> !(ms@[m].group@ == groups@[a]@ && has_text(
                        resource.allowed_roles@,
                        ms@[m].role@,
                    )),
        {
            for m in 0..ms.len()
                invariant
                    g < groups@.len(),
                    groups@ == identity.spec_groups(),
                    ms@ == self.group_role_mappings@,
                    forall|b: int|
                        #![trigger ms@[b]]
                        0 <= b < m ==> !(ms@[b].group@ == groups@[g as int]@ && has_text(
                            resource.allowed_roles@,
                            ms@[b].role@,
                        )),
            {
                if same_text(ms[m].group.as_str(), groups[g].as_str()) && contains_text(
                    &resource.allowed_roles,
                    ms[m].role.as_str(),
                ) {
                    return true;
                }
            }
        }
        false
    }

    /// The resources that the identity may access, in policy order.
    pub fn authorized(&self, identity: &VerifiedIdentity) -> (r: Vec<&Resource>)
        ensures
            r@.len() == self.permitted(identity.spec_groups(), self.resources@).len(),
            forall|i: int|
                0 <= i < r@.len() ==> *r@[i] == self.permitted(
                    identity.spec_groups(),
                    self.resources@,
                )[i],
    {
        let ghost groups = identity.spec_groups();
        let mut r: Vec<&Resource> = Vec::new();
        for i in 0..self.resources.len()
            invariant
                groups == identity.spec_groups(),
                r@.len() == self.permitted(groups, self.resources@.take(i as int)).len(),
                forall|k: int|
                    0 <= k < r@.len() ==> *r@[k] == self.permitted(
                        groups,
                        self.resources@.take(i as int),
                    )[k],
        {
            assert(self.resources@.take(i + 1).drop_last() == self.resources@.take(i as int));
            if self.permits(identity, &self.resources[i]) {
                r.push(&self.resources[i]);
            }
        }
        assert(self.resources@.take(self.resources@.len() as int) == self.resources@);
        r
    }
}

impl Policy {
    /// Whether the policy declares the role `r`.
    fn declares_role(&self, r: &str) -> (b: bool)
        ensures
            b == self.has_role(r@),
    {
        for i in 0..self.roles.len()
            invariant
                forall|k: int| 0 <= k < i ==> (#[trigger] self.roles@[k]).id@ != r@,
        {
            if same_text(self.roles[i].id.as_str(), r) {
                assert(self.role_ids()[i as int] == self.roles@[i as int].id);
                return true;
            }
        }
        assert forall|k: int| 0 <= k < self.role_ids().len() implies (#[trigger] self.role_ids()[k])@
            != r@ by {
            assert(self.role_ids()[k] == self.roles@[k].id);
        }
        false
    }

    /// Whether some mapping maps the group `g`.
    fn knows_group(&self, g: &str) -> (b: bool)
        ensures
            b == self.group_known(g@),
    {
        for i in 0..self.group_role_mappings.len()
            invariant
                forall|k: int|
                    0 <= k < i ==> (#[trigger] self.group_role_mappings@[k]).group@ != g@,
        {
            if same_text(self.group_role_mappings[i].group.as_str(), g) {
                return true;
            }
        }
        false
    }

    fn defaults_check(&self, d: &Directory) -> (b: bool)
        ensures
            b == self.defaults_ok(*d),
    {
        same_text(self.default_decision.as_str(), "deny") && !d.issuer.as_str().is_empty()
            && !d.audience.as_str().is_empty() && d.token_ttl_seconds == 900
            && d.identities.len() > 0 && self.resources.len() > 0
    }

    fn roles_check(&self) -> (b: bool)
        ensures
            b == spec_unique_nonempty(self.role_ids()),
    {
        let mut ids: Vec<String> = Vec::new();
        for i in 0..self.roles.len()
            invariant
                ids@ == self.role_ids().take(i as int),
        {
            ids.push(self.roles[i].id.clone());
            assert(ids@ =~= self.role_ids().take(i + 1));
        }
        assert(self.role_ids().take(self.roles@.len() as int) =~= self.role_ids());
        unique_nonempty(&ids)
    }

    fn mappings_check(&self) -> (b: bool)
        ensures
            b == self.mappings_ok(),
    {
        let ms = &self.group_role_mappings;
        for k in 0..ms.len()
            invariant
                ms@ == self.group_role_mappings@,
                forall|a: int| 0 <= a < k ==> #[trigger] self.mapping_ok(a),
        {
            if ms[k].group.as_str().is_empty() || !self.declares_role(ms[k].role.as_str()) {
                assert(!self.mapping_ok(k as int));
                return false;
            }
            for j in 0..k
                invariant
                    k < ms@.len(),
                    ms@ == self.group_role_mappings@,
                    forall|a: int| 0 <= a < j ==> (#[trigger] ms@[a]).group@ != ms@[k as int].group@,
            {
                if same_text(ms[j].group.as_str(), ms[k].group.as_str()) {
                    assert(!self.mapping_ok(k as int));
                    return false;
                }
            }
            assert(self.mapping_ok(k as int));
        }
        true
    }

    /// Number of policy identities with identifier `id`, and the first one.
    fn policy_identity(&self, id: &str) -> (r: (usize, Option<&PolicyIdentity>))
        ensures
            r.0 == count_identity(self.identities@, id@),
            match r.1 {
                Some(p) => find_policy_identity(self.identities@, id@) == Some(*p),
                None => find_policy_identity(self.identities@, id@) is None,
            },
    {
        let ghost s = self.identities@;
        let mut n: usize = 0;
        let mut first: Option<&PolicyIdentity> = None;
        assert(s.skip(0) == s);
        for i in 0..self.identities.len()
            invariant
                s == self.identities@,
                n == count_identity(s.take(i as int), id@),
                n <= i,
                match first {
                    Some(p) => find_policy_identity(s, id@) == Some(*p),
                    None => find_policy_identity(s, id@) == find_policy_identity(
                        s.skip(i as int),
                        id@,
                    ),
                },
        {
            assert(s.take(i + 1).drop_last() == s.take(i as int));
            proof {
                if first is None {
                    assert(s.skip(i as int).drop_first() == s.skip(i + 1));
                }
            }
            if same_text(self.identities[i].id.as_str(), id) {
                n = n + 1;
                if first.is_none() {
                    first = Some(&self.identities[i]);
                }
            }
        }
        assert(s.take(s.len() as int) == s);
        proof {
            if first is None {
                assert(s.skip(s.len() as int).len() == 0);
            }
        }
        (n, first)
    }

    /// 0 when the `k`-th directory entry passes, else 1, 2 or 3 for the first failed check.
    fn entry_status(&self, d: &Directory, k: usize) -> (st: u8)
        requires
            k < d.identities@.len(),
            self.mappings_ok(),
        ensures
            st == 0 <==> (self.entry_valid(*d, k as int) && self.entry_matches(*d, k as int)
                && self.entry_roles_agree(*d, k as int)),
            st == 1 <==> !self.entry_valid(*d, k as int),
            st == 2 <==> (self.entry_valid(*d, k as int) && !self.entry_matches(*d, k as int)),
            st == 3 <==> (self.entry_valid(*d, k as int) && self.entry_matches(*d, k as int)
                && !self.entry_roles_agree(*d, k as int)),
    {
        let e = &d.identities[k];
        if !valid_id(e.id.as_str()) || e.display_name.as_str().is_empty() || !unique_nonempty(
            &e.groups,
        ) {
            return 1;
        }
        for j in 0..k
            invariant
                k < d.identities@.len(),
                *e == d.identities@[k as int],
                forall|a: int| 0 <= a < j ==> (#[trigger] d.identities@[a]).id@ != e.id@,
        {
            if same_text(d.identities[j].id.as_str(), e.id.as_str()) {
                return 1;
            }
        }
        for g in 0..e.groups.len()
            invariant
                k < d.identities@.len(),
                *e == d.identities@[k as int],
                forall|a: int| 0 <= a < g ==> self.group_known((#[trigger] e.groups@[a])@),
        {
            if !self.knows_group(e.groups[g].as_str()) {
                return 1;
            }
        }
        let (n, first) = self.policy_identity(e.id.as_str());
        let p = match first {
            Some(p) => p,
            None => {
                return 2;
            },
        };
        if n != 1 || !same_text(p.display_name.as_str(), e.display_name.as_str())
            || !unique_nonempty(&p.roles) {
            return 2;
        }
        let mut expected: Vec<String> = Vec::new();
        for g in 0..e.groups.len()
            invariant
                k < d.identities@.len(),
                *e == d.identities@[k as int],
                self.entry_valid(*d, k as int),
                expected@.len() == g,
                forall|t: int|
                    0 <= t < g ==> mapped_role(self.group_role_mappings@, (#[trigger] e.groups@[t])@)
                        == Some(expected@[t]@),
        {
            proof {
                lemma_known_group_is_mapped(self.group_role_mappings@, e.groups@[g as int]@);
            }
            match mapping_role(&self.group_role_mappings, e.groups[g].as_str()) {
                Some(role) => expected.push(role.clone()),
                None => {
                    assert(false);
                    return 3;
                },
            }
        }
        let agree = same_string_sets(&expected, &p.roles);
        proof {
            assert forall|r: Seq<char>|
                has_text(expected@, r) <==> (exists|g: int|
                    0 <= g < e.groups@.len() && mapped_role(
                        self.group_role_mappings@,
                        (#[trigger] e.groups@[g])@,
                    ) == Some(r)) by {
                if has_text(expected@, r) {
                    let t = choose|t: int| 0 <= t < expected@.len() && (#[trigger] expected@[t])@ == r;
                    assert(mapped_role(self.group_role_mappings@, e.groups@[t]@) == Some(r));
                }
                if exists|g: int|
                    0 <= g < e.groups@.len() && mapped_role(
                        self.group_role_mappings@,
                        (#[trigger] e.groups@[g])@,
                    ) == Some(r) {
                    let g = choose|g: int|
                        0 <= g < e.groups@.len() && mapped_role(
                            self.group_role_mappings@,
                            (#[trigger] e.groups@[g])@,
                        ) == Some(r);
                    assert(expected@[g]@ == r);
                }
            }
        }
        if agree {
            0
        } else {
            3
        }
    }

    /// Whether the `k`-th resource passes its checks.
    fn resource_check(&self, k: usize) -> (b: bool)
        requires
            k < self.resources@.len(),
        ensures
            b == self.resource_ok(k as int),
    {
        let r = &self.resources[k];
        if !valid_id(r.id.as_str()) {
            return false;
        }
        for j in 0..k
            invariant
                k < self.resources@.len(),
                *r == self.resources@[k as int],
                forall|a: int| 0 <= a < j ==> (#[trigger] self.resources@[a]).id@ != r.id@,
        {
            if same_text(self.resources[j].id.as_str(), r.id.as_str()) {
                return false;
            }
        }
        let c = r.classification.as_str();
        if !(same_text(c, "PUBLIC") || same_text(c, "RH") || same_text(c, "IT")) {
            return false;
        }
        if !unique_nonempty(&r.allowed_roles) {
            return false;
        }
        for a in 0..r.allowed_roles.len()
            invariant
                k < self.resources@.len(),
                *r == self.resources@[k as int],
                forall|b: int| 0 <= b < a ==> self.has_role((#[trigger] r.allowed_roles@[b])@),
        {
            if !self.declares_role(r.allowed_roles[a].as_str()) {
                return false;
            }
        }
        let path = chars_of(r.path.as_str());
        let prefix = chars_of("demo-documents/");
        let suffix = chars_of(".md");
        starts_with(&path, &prefix) && ends_with(&path, &suffix) && safe_relative_chars(&path)
    }

    /// Checks that the policy is deny-by-default and consistent with the directory:
    /// unique declared roles, group mappings onto declared roles, directory entries
    /// matching policy identities role for role, and well-formed resources whose
    /// paths stay under `demo-documents/`.
    pub fn validate(&self, directory: &Directory) -> (r: Result<(), &'static str>)
        ensures
            match r {
                Ok(()) => self.spec_validate(*directory) is None,
                Err(e) => self.spec_validate(*directory) == Some(e@),
            },
    {
        if !self.defaults_check(directory) {
            return Err("invalid policy/directory defaults");
        }
        if !self.roles_check() {
            return Err("invalid roles");
        }
        if !self.mappings_check() {
            return Err("invalid group mapping");
        }
        let n = directory.identities.len();
        for k in 0..n
            invariant
                n == directory.identities@.len(),
                self.defaults_ok(*directory),
                spec_unique_nonempty(self.role_ids()),
                self.mappings_ok(),
                self.entries_from(*directory, 0) == self.entries_from(*directory, k as int),
        {
            let st = self.entry_status(directory, k);
            if st == 1 {
                assert(self.entries_from(*directory, k as int) == Some(
                    "invalid directory identity"@,
                ));
                return Err("invalid directory identity");
            } else if st == 2 {
                assert(self.entries_from(*directory, k as int) == Some(
                    "policy and directory identity mismatch"@,
                ));
                return Err("policy and directory identity mismatch");
            } else if st == 3 {
                assert(self.entries_from(*directory, k as int) == Some(
                    "policy and directory roles mismatch"@,
                ));
                return Err("policy and directory roles mismatch");
            }
            assert(self.entries_from(*directory, k as int) == self.entries_from(
                *directory,
                k + 1,
            ));
        }
        assert(self.entries_from(*directory, n as int) is None);
        if self.identities.len() != n {
            return Err("identity count mismatch");
        }
        for k in 0..self.resources.len()
            invariant
                self.defaults_ok(*directory),
                spec_unique_nonempty(self.role_ids()),
                self.mappings_ok(),
                self.entries_from(*directory, 0) is None,
                self.identities@.len() == directory.identities@.len(),
                forall|a: int| 0 <= a < k ==> #[trigger] self.resource_ok(a),
        {
            if !self.resource_check(k) {
                assert(!self.resources_ok());
                return Err("invalid resource");
            }
        }
        Ok(())
    }
}

/// A group that some mapping names has a mapped role.
pub proof fn lemma_known_group_is_mapped(ms: Seq<GroupRole>, g: Seq<char>)
    requires
        exists|m: int| 0 <= m < ms.len() && (#[trigger] ms[m]).group@ == g,
    ensures
        mapped_role(ms, g) is Some,
    decreases ms.len(),
{
    if ms[0].group@ != g {
        let m = choose|m: int| 0 <= m < ms.len() && (#[trigger] ms[m]).group@ == g;
        assert(ms.drop_first()[m - 1] == ms[m]);
        lemma_known_group_is_mapped(ms.drop_first(), g);
    }
}

} // verus!
