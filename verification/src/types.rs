//! Core data model: addresses, topics, log records, and filters.
//!
//! A log record is one emitted event: a 20-byte contract address, up to four
//! 32-byte topics, and opaque payload bytes. A filter selects log records by
//! an optional exact address pattern and positional exact-match topic
//! patterns.

use vstd::prelude::*;

verus! {

/// Number of bytes in a contract address.
pub const ADDRESS_BYTES: usize = 20;

/// Number of bytes in one topic word.
pub const TOPIC_BYTES: usize = 32;

/// Maximum number of topics a log record may carry.
pub const MAX_TOPICS: usize = 4;

/// A 20-byte contract address.
pub struct Address {
    pub bytes: Vec<u8>,
}

/// A 32-byte topic word.
pub struct Topic {
    pub bytes: Vec<u8>,
}

/// Mathematical model of a log record.
pub struct LogRecordV {
    pub address: Seq<u8>,
    pub topics: Seq<Seq<u8>>,
    pub data: Seq<u8>,
}

/// One emitted event: address, ordered topics, and payload bytes.
pub struct LogRecord {
    pub address: Address,
    pub topics: Vec<Topic>,
    pub data: Vec<u8>,
}

/// Mathematical model of a filter.
pub struct FilterV {
    pub address_pattern: Option<Seq<u8>>,
    pub topic_patterns: Seq<Option<Seq<u8>>>,
}

/// An address/topic matcher selecting which log records belong to a named
/// event stream.
pub struct Filter {
    pub address_pattern: Option<Address>,
    pub topic_patterns: Vec<Option<Topic>>,
}

impl View for Address {
    type V = Seq<u8>;

    open spec fn view(&self) -> Seq<u8> {
        self.bytes@
    }
}

impl Address {
    /// The address is exactly 20 bytes.
    pub open spec fn wf(&self) -> bool {
        self@.len() == ADDRESS_BYTES
    }

    /// Wraps exactly 20 bytes as an address.
    pub fn new(bytes: Vec<u8>) -> (r: Self)
        requires
            bytes@.len() == ADDRESS_BYTES,
        ensures
            r.wf(),
            r@ == bytes@,
    {
        Address { bytes }
    }

    /// The address whose last byte is `b` and whose other bytes are zero.
    pub fn from_low_byte(b: u8) -> (r: Self)
        ensures
            r.wf(),
            r@ == Seq::new(ADDRESS_BYTES as nat, |i: int| if i == ADDRESS_BYTES - 1 { b } else { 0u8 }),
    {
        let mut bytes: Vec<u8> = Vec::new();
        let mut i: usize = 0;
        while i < ADDRESS_BYTES - 1
            invariant
                i <= ADDRESS_BYTES - 1,
                bytes@.len() == i,
                forall|j: int| 0 <= j < i ==> bytes@[j] == 0u8,
            decreases ADDRESS_BYTES - i,
        {
            bytes.push(0u8);
            i = i + 1;
        }
        bytes.push(b);
        let r = Address { bytes };
        proof {
            assert(r@ =~= Seq::new(
                ADDRESS_BYTES as nat,
                |i: int| if i == ADDRESS_BYTES - 1 { b } else { 0u8 },
            ));
        }
        r
    }

    /// A copy of this address with an equal view.
    pub fn duplicate(&self) -> (r: Self)
        ensures
            r@ == self@,
    {
        Address { bytes: copy_bytes(&self.bytes) }
    }

    /// The raw bytes of the address.
    pub fn as_bytes(&self) -> (r: &Vec<u8>)
        ensures
            r@ == self@,
    {
        &self.bytes
    }
}

impl View for Topic {
    type V = Seq<u8>;

    open spec fn view(&self) -> Seq<u8> {
        self.bytes@
    }
}

impl Topic {
    /// The topic is exactly 32 bytes.
    pub open spec fn wf(&self) -> bool {
        self@.len() == TOPIC_BYTES
    }

    /// Wraps exactly 32 bytes as a topic.
    pub fn new(bytes: Vec<u8>) -> (r: Self)
        requires
            bytes@.len() == TOPIC_BYTES,
        ensures
            r.wf(),
            r@ == bytes@,
    {
        Topic { bytes }
    }

    /// A copy of this topic with an equal view.
    pub fn duplicate(&self) -> (r: Self)
        ensures
            r@ == self@,
    {
        Topic { bytes: copy_bytes(&self.bytes) }
    }

    /// The raw bytes of the topic.
    pub fn as_bytes(&self) -> (r: &Vec<u8>)
        ensures
            r@ == self@,
    {
        &self.bytes
    }
}

impl View for LogRecord {
    type V = LogRecordV;

    open spec fn view(&self) -> LogRecordV {
        LogRecordV {
            address: self.address@,
            topics: Seq::new(self.topics@.len(), |i: int| self.topics@[i]@),
            data: self.data@,
        }
    }
}

impl LogRecord {
    /// Address and topics have their exact widths and there are at most four
    /// topics.
    pub open spec fn wf(&self) -> bool {
        &&& self.address.wf()
        &&& self.topics@.len() <= MAX_TOPICS
        &&& forall|i: int| 0 <= i < self.topics@.len() ==> self.topics@[i].wf()
    }

    /// Builds a log record from its parts.
    pub fn new(address: Address, topics: Vec<Topic>, data: Vec<u8>) -> (r: Self)
        requires
            address.wf(),
            topics@.len() <= MAX_TOPICS,
            forall|i: int| 0 <= i < topics@.len() ==> topics@[i].wf(),
        ensures
            r.wf(),
            r@.address == address@,
            r@.topics == Seq::new(topics@.len(), |i: int| topics@[i]@),
            r@.data == data@,
    {
        LogRecord { address, topics, data }
    }

    /// Decides well-formedness at run time — exactly `wf` — so a caller
    /// outside the verified boundary can test a record before handing it
    /// in.
    pub fn check_wf(&self) -> (r: bool)
        ensures
            r == self.wf(),
    {
        if self.address.bytes.len() != ADDRESS_BYTES {
            return false;
        }
        if self.topics.len() > MAX_TOPICS {
            return false;
        }
        let mut i: usize = 0;
        while i < self.topics.len()
            invariant
                i <= self.topics@.len(),
                self.address.wf(),
                self.topics@.len() <= MAX_TOPICS,
                forall|j: int| 0 <= j < i ==> self.topics@[j].wf(),
            decreases self.topics@.len() - i,
        {
            if self.topics[i].bytes.len() != TOPIC_BYTES {
                proof {
                    assert(!self.topics@[i as int].wf());
                }
                return false;
            }
            i = i + 1;
        }
        true
    }

    /// A copy of this record with an equal view.
    pub fn duplicate(&self) -> (r: Self)
        ensures
            r@ == self@,
            self.wf() ==> r.wf(),
    {
        let mut topics: Vec<Topic> = Vec::new();
        let mut i: usize = 0;
        while i < self.topics.len()
            invariant
                i <= self.topics@.len(),
                topics@.len() == i,
                forall|j: int| 0 <= j < i ==> topics@[j]@ == self.topics@[j]@,
                forall|j: int| 0 <= j < i ==> topics@[j].wf() == self.topics@[j].wf(),
            decreases self.topics@.len() - i,
        {
            topics.push(self.topics[i].duplicate());
            i = i + 1;
        }
        let r = LogRecord {
            address: self.address.duplicate(),
            topics,
            data: copy_bytes(&self.data),
        };
        proof {
            assert(r@.topics =~= self@.topics);
        }
        r
    }
}

/// Whether log record `l` matches filter `f`: the address pattern, when
/// present, equals the record's address, and each present positional topic
/// pattern equals the record's topic at that position.
pub open spec fn spec_matches(f: FilterV, l: LogRecordV) -> bool {
    &&& match f.address_pattern {
        Some(a) => a == l.address,
        None => true,
    }
    &&& forall|i: int|
        0 <= i < f.topic_patterns.len() ==> match #[trigger] f.topic_patterns[i] {
            Some(t) => i < l.topics.len() && l.topics[i] == t,
            None => true,
        }
}

impl View for Filter {
    type V = FilterV;

    open spec fn view(&self) -> FilterV {
        FilterV {
            address_pattern: match self.address_pattern {
                Some(a) => Some(a@),
                None => None,
            },
            topic_patterns: Seq::new(
                self.topic_patterns@.len(),
                |i: int| match self.topic_patterns@[i] {
                    Some(t) => Some(t@),
                    None => None,
                },
            ),
        }
    }
}

impl Filter {
    /// Patterns have their exact widths and there are at most four positional
    /// topic patterns.
    pub open spec fn wf(&self) -> bool {
        &&& match self.address_pattern {
            Some(a) => a.wf(),
            None => true,
        }
        &&& self.topic_patterns@.len() <= MAX_TOPICS
        &&& forall|i: int|
            0 <= i < self.topic_patterns@.len() ==> match #[trigger] self.topic_patterns@[i] {
                Some(t) => t.wf(),
                None => true,
            }
    }

    /// Builds a filter from an optional address pattern and positional topic
    /// patterns.
    pub fn new(address_pattern: Option<Address>, topic_patterns: Vec<Option<Topic>>) -> (r: Self)
        requires
            match address_pattern {
                Some(a) => a.wf(),
                None => true,
            },
            topic_patterns@.len() <= MAX_TOPICS,
            forall|i: int|
                0 <= i < topic_patterns@.len() ==> match #[trigger] topic_patterns@[i] {
                    Some(t) => t.wf(),
                    None => true,
                },
        ensures
            r.wf(),
            r.address_pattern == address_pattern,
            r.topic_patterns == topic_patterns,
    {
        Filter { address_pattern, topic_patterns }
    }

    /// A copy of this filter with an equal view.
    pub fn duplicate(&self) -> (r: Self)
        ensures
            r@ == self@,
            self.wf() ==> r.wf(),
    {
        let address_pattern = match &self.address_pattern {
            Some(a) => Some(a.duplicate()),
            None => None,
        };
        let mut topic_patterns: Vec<Option<Topic>> = Vec::new();
        let mut i: usize = 0;
        while i < self.topic_patterns.len()
            invariant
                i <= self.topic_patterns@.len(),
                topic_patterns@.len() == i,
                forall|j: int| 0 <= j < i ==> match (#[trigger] topic_patterns@[j], self.topic_patterns@[j]) {
                    (Some(a), Some(b)) => a@ == b@ && (b.wf() ==> a.wf()),
                    (None, None) => true,
                    _ => false,
                },
            decreases self.topic_patterns@.len() - i,
        {
            let entry = match &self.topic_patterns[i] {
                Some(t) => Some(t.duplicate()),
                None => None,
            };
            topic_patterns.push(entry);
            i = i + 1;
        }
        let r = Filter { address_pattern, topic_patterns };
        proof {
            assert(r@.topic_patterns =~= self@.topic_patterns);
            assert(r@.address_pattern =~= self@.address_pattern);
        }
        r
    }

    /// Whether `log` matches this filter. Equals `spec_matches` on the views,
    /// so the result depends on the filter and record values alone.
    pub fn matches(&self, log: &LogRecord) -> (r: bool)
        ensures
            r == spec_matches(self@, log@),
    {
        match &self.address_pattern {
            Some(a) => {
                if !bytes_eq(a.as_bytes(), log.address.as_bytes()) {
                    return false;
                }
            },
            None => {},
        }
        let mut i: usize = 0;
        while i < self.topic_patterns.len()
            invariant
                i <= self.topic_patterns@.len(),
                forall|j: int|
                    0 <= j < i ==> match #[trigger] self@.topic_patterns[j] {
                        Some(t) => j < log@.topics.len() && log@.topics[j] == t,
                        None => true,
                    },
                match self@.address_pattern {
                    Some(a) => a == log@.address,
                    None => true,
                },
            decreases self.topic_patterns@.len() - i,
        {
            match &self.topic_patterns[i] {
                Some(t) => {
                    proof {
                        assert(self@.topic_patterns[i as int] == Some(t@));
                    }
                    if i >= log.topics.len() {
                        proof {
                            assert(log@.topics.len() == log.topics@.len());
                            assert(!spec_matches(self@, log@));
                        }
                        return false;
                    }
                    proof {
                        assert(log@.topics[i as int] == log.topics@[i as int]@);
                    }
                    if !bytes_eq(t.as_bytes(), log.topics[i].as_bytes()) {
                        proof {
                            assert(!spec_matches(self@, log@));
                        }
                        return false;
                    }
                },
                None => {},
            }
            i = i + 1;
        }
        true
    }
}

/// Filter matching is deterministic and pure: filters and records with equal
/// views always produce the identical boolean.
pub proof fn lemma_match_deterministic(f1: Filter, f2: Filter, l1: LogRecord, l2: LogRecord)
    requires
        f1@ == f2@,
        l1@ == l2@,
    ensures
        spec_matches(f1@, l1@) == spec_matches(f2@, l2@),
{
}

/// Compares two byte vectors for element-wise equality.
pub fn bytes_eq(a: &Vec<u8>, b: &Vec<u8>) -> (r: bool)
    ensures
        r == (a@ == b@),
{
    if a.len() != b.len() {
        return false;
    }
    let mut i: usize = 0;
    while i < a.len()
        invariant
            a@.len() == b@.len(),
            i <= a@.len(),
            forall|j: int| 0 <= j < i ==> a@[j] == b@[j],
        decreases a@.len() - i,
    {
        if a[i] != b[i] {
            return false;
        }
        i = i + 1;
    }
    proof {
        assert(a@ =~= b@);
    }
    true
}

/// Copies a byte vector.
pub fn copy_bytes(v: &Vec<u8>) -> (r: Vec<u8>)
    ensures
        r@ == v@,
{
    let mut r: Vec<u8> = Vec::new();
    let mut i: usize = 0;
    while i < v.len()
        invariant
            i <= v@.len(),
            r@ == v@.take(i as int),
        decreases v@.len() - i,
    {
        r.push(v[i]);
        proof {
            assert(r@ =~= v@.take(i + 1));
        }
        i = i + 1;
    }
    proof {
        assert(v@.take(v@.len() as int) =~= v@);
    }
    r
}

} // verus!
