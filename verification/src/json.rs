//! JSON values.

use vstd::prelude::*;

use crate::table::Duplicate;
use crate::text;

verus! {

/// A JSON value. Where a key of an object comes twice, the later value counts.
pub enum Json {
    Null,
    Bool(bool),
    Number(u64),
    /// A number that is no unsigned 64-bit integer, as it is written.
    OtherNumber(String),
    Text(String),
    Array(Vec<Json>),
    Object(Vec<(String, Json)>),
}

/// What a JSON value says.
pub enum JsonView {
    Null,
    Bool(bool),
    Number(nat),
    OtherNumber(Seq<char>),
    Text(Seq<char>),
    Array(Seq<JsonView>),
    Object(Map<Seq<char>, JsonView>),
}

/// What a JSON value says.
pub open spec fn value_of(json: Json) -> JsonView
    decreases json,
{
    match json {
        Json::Null => JsonView::Null,
        Json::Bool(b) => JsonView::Bool(b),
        Json::Number(n) => JsonView::Number(n as nat),
        Json::OtherNumber(s) => JsonView::OtherNumber(s@),
        Json::Text(s) => JsonView::Text(s@),
        Json::Array(items) => JsonView::Array(list_of(items@)),
        Json::Object(members) => JsonView::Object(members_of(members@)),
    }
}

/// What the values of a list say.
pub open spec fn list_of(items: Seq<Json>) -> Seq<JsonView>
    decreases items,
{
    if items.len() == 0 {
        Seq::empty()
    } else {
        list_of(items.drop_last()).push(value_of(items.last()))
    }
}

/// What the members of an object say.
pub open spec fn members_of(members: Seq<(String, Json)>) -> Map<Seq<char>, JsonView>
    decreases members,
{
    if members.len() == 0 {
        Map::empty()
    } else {
        members_of(members.drop_last()).insert(members.last().0@, value_of(members.last().1))
    }
}

impl View for Json {
    type V = JsonView;

    open spec fn view(&self) -> JsonView {
        value_of(*self)
    }
}

impl JsonView {
    /// The member `key`, where the value is an object that has it.
    pub open spec fn get(self, key: Seq<char>) -> Option<JsonView> {
        match self {
            JsonView::Object(members) => if members.contains_key(key) {
                Some(members[key])
            } else {
                None
            },
            _ => None,
        }
    }

    /// The member `key`, null where there is none.
    pub open spec fn at(self, key: Seq<char>) -> JsonView {
        match self.get(key) {
            Some(value) => value,
            None => JsonView::Null,
        }
    }

    /// The text, where the value is one.
    pub open spec fn as_text(self) -> Option<Seq<char>> {
        match self {
            JsonView::Text(s) => Some(s),
            _ => None,
        }
    }

    /// The text, or `default` where the value is no text.
    pub open spec fn text_or(self, default: Seq<char>) -> Seq<char> {
        match self {
            JsonView::Text(s) => s,
            _ => default,
        }
    }

    /// The truth value, where the value is one.
    pub open spec fn as_bool(self) -> Option<bool> {
        match self {
            JsonView::Bool(b) => Some(b),
            _ => None,
        }
    }

    /// The items, where the value is a list.
    pub open spec fn as_array(self) -> Option<Seq<JsonView>> {
        match self {
            JsonView::Array(items) => Some(items),
            _ => None,
        }
    }

    /// The members, where the value is an object.
    pub open spec fn as_object(self) -> Option<Map<Seq<char>, JsonView>> {
        match self {
            JsonView::Object(members) => Some(members),
            _ => None,
        }
    }

    /// An object without members.
    pub open spec fn object() -> JsonView {
        JsonView::Object(Map::empty())
    }

    /// The object with one more member, or with another value for it.
    pub open spec fn with(self, key: Seq<char>, value: JsonView) -> JsonView {
        match self {
            JsonView::Object(members) => JsonView::Object(members.insert(key, value)),
            _ => self,
        }
    }
}

/// As many values say something as there are, each at its place.
pub proof fn lemma_list(items: Seq<Json>)
    ensures
        list_of(items).len() == items.len(),
        forall|i: int| 0 <= i < items.len() ==> #[trigger] list_of(items)[i] == value_of(items[i]),
    decreases items,
{
    if items.len() > 0 {
        let shorter = items.drop_last();
        lemma_list(shorter);
        assert forall|i: int| 0 <= i < items.len() implies #[trigger] list_of(items)[i] == value_of(
            items[i],
        ) by {
            if i < shorter.len() {
                assert(shorter[i] == items[i]);
                assert(list_of(shorter)[i] == value_of(shorter[i]));
            }
        }
    }
}

/// The last member with a key decides its value.
proof fn lemma_member(members: Seq<(String, Json)>, i: int, key: Seq<char>)
    requires
        -1 <= i < members.len(),
        i >= 0 ==> members[i].0@ == key,
        forall|j: int| i < j < members.len() ==> (#[trigger] members[j]).0@ != key,
    ensures
        members_of(members).contains_key(key) == (i >= 0),
        i >= 0 ==> members_of(members)[key] == value_of(members[i].1),
    decreases members,
{
    if members.len() > 0 && i < members.len() - 1 {
        let shorter = members.drop_last();
        assert forall|j: int| i < j < shorter.len() implies (#[trigger] shorter[j]).0@ != key by {
            assert(shorter[j] == members[j]);
        }
        if i >= 0 {
            assert(shorter[i] == members[i]);
        }
        lemma_member(shorter, i, key);
        assert(members[members.len() - 1].0@ != key);
    }
}

/// The key of a member is a key of the object.
proof fn lemma_member_is_key(members: Seq<(String, Json)>, i: int)
    requires
        0 <= i < members.len(),
    ensures
        members_of(members).contains_key(members[i].0@),
    decreases members,
{
    if i < members.len() - 1 {
        lemma_member_is_key(members.drop_last(), i);
        assert(members.drop_last()[i] == members[i]);
    }
}

/// A key of the object is the key of a member.
proof fn lemma_key_is_member(members: Seq<(String, Json)>, key: Seq<char>)
    requires
        members_of(members).contains_key(key),
    ensures
        exists|i: int| 0 <= i < members.len() && (#[trigger] members[i]).0@ == key,
    decreases members,
{
    if members.len() > 0 {
        if members.last().0@ == key {
            assert(members[members.len() - 1].0@ == key);
        } else {
            let shorter = members.drop_last();
            lemma_key_is_member(shorter, key);
            let i = choose|i: int| 0 <= i < shorter.len() && (#[trigger] shorter[i]).0@ == key;
            assert(members[i].0@ == key);
        }
    }
}

impl Json {
    /// The member `key`, where the value is an object that has it.
    pub fn get(&self, key: &str) -> (res: Option<&Json>)
        ensures
            res is Some <==> self@.get(key@) is Some,
            res matches Some(value) ==> self@.get(key@) == Some(value@),
    {
        match self {
            Json::Object(members) => {
                let mut i: usize = members.len();
                while i > 0
                    invariant
                        0 <= i <= members@.len(),
                        forall|j: int| i <= j < members@.len() ==> (#[trigger] members@[j]).0@ != key@,
                        self@ == JsonView::Object(members_of(members@)),
                    decreases i,
                {
                    i -= 1;
                    if text::same(members[i].0.as_str(), key) {
                        proof {
                            lemma_member(members@, i as int, key@);
                        }
                        return Some(&members[i].1);
                    }
                }
                proof {
                    lemma_member(members@, -1, key@);
                }
                None
            },
            _ => None,
        }
    }

    /// The text of member `key`, where there is one.
    pub fn text_at(&self, key: &str) -> (res: Option<String>)
        ensures
            res is Some <==> self@.at(key@).as_text() is Some,
            res matches Some(s) ==> self@.at(key@).as_text() == Some(s@),
    {
        match self.get(key) {
            Some(value) => value.as_text(),
            None => None,
        }
    }

    /// The text of member `key`, or `default` where there is none.
    pub fn text_at_or(&self, key: &str, default: &str) -> (res: String)
        ensures
            res@ == self@.at(key@).text_or(default@),
    {
        match self.get(key) {
            Some(Json::Text(s)) => s.clone(),
            _ => default.to_owned(),
        }
    }

    /// The text, where the value is one.
    pub fn as_text(&self) -> (res: Option<String>)
        ensures
            res is Some <==> self@.as_text() is Some,
            res matches Some(s) ==> self@.as_text() == Some(s@),
    {
        match self {
            Json::Text(s) => Some(s.clone()),
            _ => None,
        }
    }

    /// Whether member `key` is the text `expected`.
    pub fn text_at_is(&self, key: &str, expected: &str) -> (res: bool)
        ensures
            res == (self@.at(key@).as_text() == Some(expected@)),
    {
        match self.get(key) {
            Some(Json::Text(s)) => text::same(s.as_str(), expected),
            _ => false,
        }
    }

    /// Whether member `key` is the truth value true.
    pub fn is_true_at(&self, key: &str) -> (res: bool)
        ensures
            res == (self@.at(key@).as_bool() == Some(true)),
    {
        match self.get(key) {
            Some(Json::Bool(b)) => *b,
            _ => false,
        }
    }

    /// The items, where the value is a list.
    pub fn as_array(&self) -> (res: Option<&Vec<Json>>)
        ensures
            res is Some <==> self@.as_array() is Some,
            res matches Some(items) ==> self@.as_array() == Some(list_of(items@)),
    {
        match self {
            Json::Array(items) => Some(items),
            _ => None,
        }
    }

    /// The items of member `key`, where it is a list.
    pub fn array_at(&self, key: &str) -> (res: Option<&Vec<Json>>)
        ensures
            res is Some <==> self@.at(key@).as_array() is Some,
            res matches Some(items) ==> self@.at(key@).as_array() == Some(list_of(items@)),
    {
        match self.get(key) {
            Some(value) => value.as_array(),
            None => None,
        }
    }

    /// The members of member `key`, where it is an object.
    pub fn object_at(&self, key: &str) -> (res: Option<&Vec<(String, Json)>>)
        ensures
            res is Some <==> self@.at(key@).as_object() is Some,
            res matches Some(members) ==> self@.at(key@).as_object() == Some(members_of(members@)),
    {
        match self.get(key) {
            Some(Json::Object(members)) => Some(members),
            _ => None,
        }
    }

    /// The keys of member `key`, where it is an object, and none where it is not.
    pub fn keys_at(&self, key: &str) -> (keys: Vec<String>)
        ensures
            forall|k: Seq<char>|
                text::texts(keys@).contains(k) <==> (self@.at(key@).as_object() matches Some(
                    members,
                ) && members.contains_key(k)),
    {
        let mut keys: Vec<String> = Vec::new();
        match self.object_at(key) {
            Some(members) => {
                let count: usize = members.len();
                let mut i: usize = 0;
                while i < count
                    invariant
                        count == members@.len(),
                        i <= count,
                        keys@.len() == i,
                        forall|j: int| 0 <= j < i ==> (#[trigger] keys@[j])@ == members@[j].0@,
                    decreases count - i,
                {
                    keys.push(members[i].0.clone());
                    i += 1;
                }
                proof {
                    let views = text::texts(keys@);
                    assert forall|k: Seq<char>|
                        views.contains(k) <==> members_of(members@).contains_key(k) by {
                        if views.contains(k) {
                            let j = views.index_of(k);
                            assert(keys@[j]@ == k);
                            lemma_member_is_key(members@, j);
                        }
                        if members_of(members@).contains_key(k) {
                            lemma_key_is_member(members@, k);
                            let j = choose|j: int|
                                0 <= j < members@.len() && (#[trigger] members@[j]).0@ == k;
                            assert(keys@[j]@ == k);
                            assert(views[j] == k);
                        }
                    }
                }
            },
            None => {
                assert(text::texts(keys@) =~= Seq::<Seq<char>>::empty());
            },
        }
        keys
    }

    /// An object without members.
    pub fn object() -> (res: Json)
        ensures
            res@ == JsonView::object(),
    {
        let res = Json::Object(Vec::new());
        assert(members_of(Seq::<(String, Json)>::empty()) =~= Map::<Seq<char>, JsonView>::empty());
        res
    }

    /// The object with one more member, or with another value for it.
    pub fn with(self, key: &str, value: Json) -> (res: Json)
        ensures
            res@ == self@.with(key@, value@),
    {
        match self {
            Json::Object(members) => {
                let ghost before = members@;
                let mut members = members;
                members.push((key.to_owned(), value));
                assert(members@.drop_last() =~= before);
                Json::Object(members)
            },
            other => other,
        }
    }

    /// The object with one more member, a text.
    pub fn with_text(self, key: &str, value: &str) -> (res: Json)
        ensures
            res@ == self@.with(key@, JsonView::Text(value@)),
    {
        self.with(key, Json::Text(value.to_owned()))
    }

    /// The object with one more member, a number.
    pub fn with_number(self, key: &str, value: u64) -> (res: Json)
        ensures
            res@ == self@.with(key@, JsonView::Number(value as nat)),
    {
        self.with(key, Json::Number(value))
    }

    /// A list of one item.
    pub fn list_of_one(item: Json) -> (res: Json)
        ensures
            res@ == JsonView::Array(seq![item@]),
    {
        let ghost said = item@;
        let mut items: Vec<Json> = Vec::new();
        items.push(item);
        proof {
            assert(items@.drop_last() =~= Seq::<Json>::empty());
            assert(list_of(Seq::<Json>::empty()) =~= Seq::<JsonView>::empty());
            assert(list_of(items@) =~= seq![said]);
        }
        Json::Array(items)
    }

    /// A list of two items.
    pub fn list_of_two(first: Json, second: Json) -> (res: Json)
        ensures
            res@ == JsonView::Array(seq![first@, second@]),
    {
        let ghost said = seq![first@, second@];
        let mut items: Vec<Json> = Vec::new();
        items.push(first);
        items.push(second);
        proof {
            lemma_list(items@);
            assert(list_of(items@)[0] == said[0]);
            assert(list_of(items@)[1] == said[1]);
            assert(list_of(items@) =~= said);
        }
        Json::Array(items)
    }

    /// A second value that says the same.
    pub fn copy(&self) -> (res: Json)
        ensures
            res@ == self@,
        decreases self,
    {
        match self {
            Json::Null => Json::Null,
            Json::Bool(b) => Json::Bool(*b),
            Json::Number(n) => Json::Number(*n),
            Json::OtherNumber(s) => Json::OtherNumber(s.clone()),
            Json::Text(s) => Json::Text(s.clone()),
            Json::Array(items) => {
                let mut copies: Vec<Json> = Vec::new();
                let length: usize = items.len();
                let mut i: usize = 0;
                assert(items@.take(0) =~= Seq::<Json>::empty());
                while i < length
                    invariant
                        *self == Json::Array(*items),
                        length == items@.len(),
                        i <= length,
                        list_of(copies@) == list_of(items@.take(i as int)),
                    decreases length - i,
                {
                    proof {
                        assert(items@.take(i + 1).drop_last() =~= items@.take(i as int));
                        assert(*items == self->Array_0);
                        assert(decreases_to!(*self => self->Array_0));
                        assert(decreases_to!(*items => items@));
                        assert(decreases_to!(items@ => items@[i as int]));
                    }
                    let ghost before = copies@;
                    copies.push(items[i].copy());
                    assert(copies@.drop_last() =~= before);
                    i += 1;
                }
                assert(items@.take(length as int) =~= items@);
                Json::Array(copies)
            },
            Json::Object(members) => {
                let mut copies: Vec<(String, Json)> = Vec::new();
                let length: usize = members.len();
                let mut i: usize = 0;
                assert(members@.take(0) =~= Seq::<(String, Json)>::empty());
                while i < length
                    invariant
                        *self == Json::Object(*members),
                        length == members@.len(),
                        i <= length,
                        members_of(copies@) == members_of(members@.take(i as int)),
                    decreases length - i,
                {
                    proof {
                        assert(members@.take(i + 1).drop_last() =~= members@.take(i as int));
                        assert(*members == self->Object_0);
                        assert(decreases_to!(*self => self->Object_0));
                        assert(decreases_to!(*members => members@));
                        assert(decreases_to!(members@ => members@[i as int]));
                        assert(decreases_to!(members@[i as int] => members@[i as int].1));
                    }
                    let ghost before = copies@;
                    copies.push((members[i].0.clone(), members[i].1.copy()));
                    assert(copies@.drop_last() =~= before);
                    i += 1;
                }
                assert(members@.take(length as int) =~= members@);
                Json::Object(copies)
            },
        }
    }
}

impl Duplicate for Json {
    fn duplicate(&self) -> (copy: Self) {
        self.copy()
    }
}

/// A list holds what its items hold, each in its place; an object holds its members, of which the
/// last one counts where a name occurs more than once; and what was put under a name is read there
/// and changes nothing else.
pub proof fn law_values_are_read_back(
    items: Seq<Json>,
    members: Seq<(String, Json)>,
    i: int,
    object: JsonView,
    key: Seq<char>,
    other: Seq<char>,
    value: JsonView,
)
    ensures
        list_of(items).len() == items.len(),
        0 <= i < items.len() ==> list_of(items)[i] == items[i]@,
        0 <= i < members.len() ==> members_of(members).contains_key(members[i].0@),
        0 <= i < members.len() && (forall|j: int|
            i < j < members.len() ==> (#[trigger] members[j]).0@ != members[i].0@) ==> members_of(
            members,
        )[members[i].0@] == members[i].1@,
        object is Object ==> object.with(key, value).at(key) == value,
        object is Object && other != key ==> object.with(key, value).at(other) == object.at(other),
        JsonView::object().at(key) is Null,
    decreases items.len() + members.len(),
{
    if items.len() > 0 {
        law_values_are_read_back(items.drop_last(), members, i, object, key, other, value);
        if i == items.len() - 1 {
            assert(items[i] == items.last());
        }
    }
    if members.len() > 0 {
        let fewer = members.drop_last();
        law_values_are_read_back(items, fewer, i, object, key, other, value);
        let last = members.len() - 1;
        assert(members[last] == members.last());
        if 0 <= i < last {
            assert(fewer[i] == members[i]);
            if forall|j: int|
                i < j < members.len() ==> (#[trigger] members[j]).0@ != members[i].0@ {
                assert forall|j: int| i < j < fewer.len() implies (#[trigger] fewer[j]).0@
                    != fewer[i].0@ by {
                    assert(fewer[j] == members[j]);
                }
                assert(members[last].0@ != members[i].0@);
            }
        }
    }
}

} // verus!
