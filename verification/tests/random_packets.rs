use o_dns::ByteBuf;
use o_dns::DnsPacket;
use o_dns::EdnsOption;
use o_dns::EncodeToBuf;
use o_dns::FromBuf;
use o_dns::QueryOpcode;
use o_dns::QueryType;
use o_dns::Question;
use o_dns::ResourceData;
use o_dns::ResourceRecord;
use o_dns::ResponseCode;

/// A small generator of numbers that gives the same numbers on every run.
struct Numbers(u64);

impl Numbers {
    fn next(&mut self) -> u64 {
        self.0 = self.0.wrapping_mul(6364136223846793005).wrapping_add(1442695040888963407);
        self.0 >> 33
    }

    fn below(&mut self, n: u64) -> u64 {
        self.next() % n
    }

    fn flag(&mut self) -> bool {
        self.below(2) == 1
    }

    fn bytes(&mut self, max: u64) -> Vec<u8> {
        (0..self.below(max + 1)).map(|_| self.below(256) as u8).collect()
    }

    fn name(&mut self) -> String {
        // Few labels from a small alphabet, so that names share their ends often
        let labels = ["a", "bb", "com", "example", "x1", "net", "ns-2", "ü"];
        (0..self.below(5))
            .map(|_| labels[self.below(labels.len() as u64) as usize])
            .collect::<Vec<_>>()
            .join(".")
    }

    fn body(&mut self) -> ResourceData {
        match self.below(5) {
            0 => ResourceData::UNKNOWN { qtype: 60000 + self.below(5000) as u16, rdata: self.bytes(40) },
            1 => ResourceData::A { address: [self.below(256) as u8; 4] },
            2 => ResourceData::AAAA { address: [self.below(256) as u8; 16] },
            3 => ResourceData::NS { ns_domain_name: self.name() },
            _ => ResourceData::CNAME { cname: self.name() },
        }
    }

    fn record(&mut self) -> ResourceRecord {
        let name = self.name();
        let body = self.body();
        ResourceRecord::new(&name, body, Some(self.next() as u32), Some(self.next() as u16))
    }

    fn records(&mut self) -> Vec<ResourceRecord> {
        (0..self.below(5)).map(|_| self.record()).collect()
    }

    fn opt(&mut self) -> ResourceRecord {
        let options = if self.flag() {
            None
        } else {
            let mut options = Vec::new();
            for code in 0..1 + self.below(4) as u16 {
                options.push(EdnsOption { code: code * 7, data: self.bytes(12) });
            }
            Some(options)
        };
        ResourceRecord::new("", ResourceData::OPT { options }, Some(self.next() as u32), Some(1232))
    }

    fn packet(&mut self) -> DnsPacket {
        let mut p = DnsPacket::new();
        p.header.id = self.next() as u16;
        p.header.is_response = self.flag();
        p.header.opcode = [QueryOpcode::QUERY, QueryOpcode::STATUS][self.below(2) as usize];
        p.header.is_authoritative = self.flag();
        p.header.recursion_desired = self.flag();
        p.header.recursion_available = self.flag();
        p.header.z = [self.flag(), self.flag(), self.flag()];
        p.header.response_code = [ResponseCode::Success, ResponseCode::Refused][self.below(2) as usize];
        for _ in 0..self.below(3) {
            let types = [QueryType::A, QueryType::ANY, QueryType::UNKNOWN(999), QueryType::OPT];
            let name = self.name();
            p.questions.push(Question::new(
                &name,
                types[self.below(4) as usize],
                Some(self.next() as u16),
            ));
        }
        p.answers = self.records();
        p.authorities = self.records();
        p.additionals = self.records();
        if self.flag() {
            let at = self.below(p.additionals.len() as u64 + 1) as usize;
            let opt = self.opt();
            p.additionals.insert(at, opt);
            p.edns = Some(at);
        }
        p.header.question_count = p.questions.len() as u16;
        p.header.answer_rr_count = p.answers.len() as u16;
        p.header.authority_rr_count = p.authorities.len() as u16;
        p.header.additional_rr_count = p.additionals.len() as u16;
        p
    }
}

fn is_part<T: PartialEq>(part: &[T], all: &[T]) -> bool {
    let mut rest = all.iter();
    part.iter().all(|x| rest.any(|y| y == x))
}

#[test]
fn random_packets_come_back_from_the_wire() {
    let mut numbers = Numbers(2024);
    for _ in 0..300 {
        let p = numbers.packet();
        let mut buf = ByteBuf::new_empty(None);
        let size = p.encode_to_buf(&mut buf, None).expect("shouldn't have failed");
        assert!(size >= buf.len());
        let back = DnsPacket::from_buf(&mut buf).expect("shouldn't have failed");
        assert_eq!(back, p);
        assert_eq!(buf.pos(), buf.len());
    }
}

#[test]
fn random_packets_keep_random_limits() {
    let mut numbers = Numbers(7);
    let mut cut_short = 0;
    for _ in 0..300 {
        let p = numbers.packet();
        let mut whole = ByteBuf::new_empty(None);
        p.encode_to_buf(&mut whole, None).unwrap();
        let limit = numbers.below(whole.len() as u64 + 10) as usize;
        let mut buf = ByteBuf::new_empty(None);
        let size = match p.encode_to_buf(&mut buf, Some(limit)) {
            Ok(size) => size,
            Err(e) => {
                assert_eq!(e, o_dns::DnsError::SizeTooSmall);
                assert_eq!(buf.len(), 0);
                continue;
            }
        };
        assert!(buf.len() <= size && size <= limit);
        let back = DnsPacket::from_buf(&mut buf).expect("shouldn't have failed");
        assert!(is_part(&back.questions, &p.questions));
        assert!(is_part(&back.answers, &p.answers));
        assert!(is_part(&back.authorities, &p.authorities));
        assert!(is_part(&back.additionals, &p.additionals));
        let removed = back.questions.len() + back.answers.len() + back.authorities.len()
            + back.additionals.len()
            < p.questions.len() + p.answers.len() + p.authorities.len() + p.additionals.len();
        assert_eq!(back.header.truncation, removed);
        assert_eq!(back.edns.is_some(), p.edns.is_some());
        if let (Some(at), Some(was)) = (back.edns, p.edns) {
            assert_eq!(back.additionals[at], p.additionals[was]);
        }
        if removed {
            cut_short += 1;
        } else {
            assert_eq!(back, p);
        }
    }
    assert!(cut_short > 50);
}
