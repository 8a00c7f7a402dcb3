use wordnet::DBFile;
use wordnet::Database;
use wordnet::DecodeError;
use wordnet::PartOfSpeech;
use wordnet::Relationship;
use wordnet::decode_index;
use wordnet::decode_sense;
use wordnet::part_of_speech_code_to_part_of_speech;
use wordnet::relationship_code_to_relationship;

fn noun_data() -> (Vec<u8>, usize) {
    // line at offset 0: the hypernym target; the "bank" sense follows it
    let target = b"0 1 n 1 side 0 0 | sloping land\n".to_vec();
    let bank_offset = target.len();
    let mut data = target;
    data.extend_from_slice(b"0 1 n 2 bank 0 banking_company 0 1 @ 0 n 0 | a financial institution\n");
    (data, bank_offset)
}

fn noun_db() -> Database {
    let (data, bank_offset) = noun_data();
    let index = format!(
        "bank n 1 0 1 0 {}\nbanking_company n 1 0 1 0 {}\n",
        bank_offset, bank_offset
    )
    .into_bytes();
    Database::new(vec![DBFile::new(PartOfSpeech::Noun, index, data)])
}

fn noun_verb_db() -> Database {
    let (data_n, bank_offset) = noun_data();
    let index_n = format!("bank n 1 0 1 0 {}\n", bank_offset).into_bytes();
    let data_v = b"0 2 v 1 bank 0 1 @ 0 n 0 2 8 9 | rely upon\n".to_vec();
    let index_v = b"bank v 1 0 1 0 0\n".to_vec();
    Database::new(vec![
        DBFile::new(PartOfSpeech::Noun, index_n, data_n),
        DBFile::new(PartOfSpeech::Verb, index_v, data_v),
    ])
}

#[test]
fn short_labels() {
    assert_eq!(PartOfSpeech::Noun.short(), "n");
    assert_eq!(PartOfSpeech::Adjective.short(), "adj");
    assert_eq!(PartOfSpeech::AdjectiveSatellite.short(), "adj");
    assert_eq!(PartOfSpeech::Verb.short(), "v");
    assert_eq!(PartOfSpeech::Adverb.short(), "adv");
}

#[test]
fn category_codes() {
    assert_eq!(part_of_speech_code_to_part_of_speech(b"n"), Ok(PartOfSpeech::Noun));
    assert_eq!(part_of_speech_code_to_part_of_speech(b"v"), Ok(PartOfSpeech::Verb));
    assert_eq!(part_of_speech_code_to_part_of_speech(b"a"), Ok(PartOfSpeech::Adjective));
    assert_eq!(part_of_speech_code_to_part_of_speech(b"s"), Ok(PartOfSpeech::AdjectiveSatellite));
    assert_eq!(part_of_speech_code_to_part_of_speech(b"r"), Ok(PartOfSpeech::Adverb));
    assert_eq!(
        part_of_speech_code_to_part_of_speech(b"x"),
        Err(DecodeError::BadPartOfSpeech)
    );
}

#[test]
fn relationship_codes() {
    assert_eq!(relationship_code_to_relationship(b"@"), Ok(Relationship::Hypernym));
    assert_eq!(relationship_code_to_relationship(b"@i"), Ok(Relationship::InstanceHypernym));
    assert_eq!(relationship_code_to_relationship(b"~"), Ok(Relationship::Hyponym));
    assert_eq!(relationship_code_to_relationship(b"~i"), Ok(Relationship::InstanceHyponym));
    assert_eq!(relationship_code_to_relationship(b"#p"), Ok(Relationship::PartHolonym));
    assert_eq!(relationship_code_to_relationship(b"%s"), Ok(Relationship::SubstanceMeronym));
    assert_eq!(relationship_code_to_relationship(b";c"), Ok(Relationship::DomainOfTopic));
    assert_eq!(relationship_code_to_relationship(b"-u"), Ok(Relationship::MemberOfUsage));
    assert_eq!(
        relationship_code_to_relationship(b"\\"),
        Ok(Relationship::PertainymOrDerivedFromAdjective)
    );
    assert_eq!(relationship_code_to_relationship(b"??"), Err(DecodeError::BadRelationship));
}

#[test]
fn find_position_present_and_absent() {
    let index = b"apple n 1 0 1 0 10\nbank n 1 0 1 0 20\nzebra n 1 0 1 0 30\n".to_vec();
    let f = DBFile::new(PartOfSpeech::Noun, index.clone(), Vec::new());
    // the first line is found at offset 0
    assert_eq!(f.find_position(b"apple"), Some(0));
    let bank_at = b"apple n 1 0 1 0 10\n".len() as u64;
    assert_eq!(f.find_position(b"bank"), Some(bank_at));
    let zebra_at = bank_at + b"bank n 1 0 1 0 20\n".len() as u64;
    assert_eq!(f.find_position(b"zebra"), Some(zebra_at));
    assert_eq!(f.find_position(b"coast"), None);
    // a prefix of an indexed word is not a match
    assert_eq!(f.find_position(b"ban"), None);
    assert_eq!(f.find_position(b"banker"), None);
}

#[test]
fn find_position_boundaries() {
    let empty = DBFile::new(PartOfSpeech::Noun, Vec::new(), Vec::new());
    assert_eq!(empty.find_position(b"anything"), None);
    let tiny = DBFile::new(PartOfSpeech::Noun, b"a n 1 0 1 0 0\n".to_vec(), Vec::new());
    assert_eq!(
        tiny.find_position(b"a word far longer than the index file contents"),
        None
    );
    assert_eq!(tiny.find_position(b"a"), Some(0));
}

#[test]
fn decode_sense_scenario() {
    let line = b"0 1 n 02 bank 0 banking_company 0 1 @ 42 n 0 | a financial institution";
    let s = decode_sense(line).unwrap();
    assert_eq!(s.part_of_speech, PartOfSpeech::Noun);
    assert_eq!(s.synonyms.len(), 2);
    assert_eq!(s.synonyms[0].word, b"bank".to_vec());
    assert_eq!(s.synonyms[0].lex_id, 0);
    // the underscore join character comes back as a space
    assert_eq!(s.synonyms[1].word, b"banking company".to_vec());
    assert_eq!(s.synonyms[1].lex_id, 0);
    assert_eq!(s.pointers.len(), 1);
    assert_eq!(s.pointers[0].relationship, Relationship::Hypernym);
    assert_eq!(s.pointers[0].part_of_speech, PartOfSpeech::Noun);
    assert_eq!(s.pointers[0].offset, 42);
    assert_eq!(s.gloss, b"a financial institution".to_vec());
}

#[test]
fn decode_sense_hex_lex_ids() {
    let line = b"0 1 n 2 bank a banking_company 1f 0 | g";
    let s = decode_sense(line).unwrap();
    assert_eq!(s.synonyms[0].lex_id, 10);
    assert_eq!(s.synonyms[1].lex_id, 31);
}

#[test]
fn decode_sense_verb_frames() {
    let line = b"0 2 v 1 bank 0 1 @ 0 n 0 2 8 9 | rely upon";
    let s = decode_sense(line).unwrap();
    assert_eq!(s.part_of_speech, PartOfSpeech::Verb);
    assert_eq!(s.synonyms.len(), 1);
    assert_eq!(s.pointers.len(), 1);
    assert_eq!(s.gloss, b"rely upon".to_vec());
    // a verb line whose frame count disagrees with the fields present
    let bad = b"0 2 v 1 bank 0 1 @ 0 n 0 3 8 9 | rely upon";
    assert_eq!(decode_sense(bad).unwrap_err(), DecodeError::CountMismatch);
}

#[test]
fn decode_sense_count_mismatches() {
    // three synonyms declared, one present
    let bad_syn = b"0 1 n 3 bank 0 0 | g";
    assert_eq!(decode_sense(bad_syn).unwrap_err(), DecodeError::CountMismatch);
    // two cross-references declared, one present
    let bad_ptr = b"0 1 n 1 bank 0 2 @ 0 n 0 | g";
    assert_eq!(decode_sense(bad_ptr).unwrap_err(), DecodeError::CountMismatch);
    // trailing fields that no count accounts for
    let trailing = b"0 1 n 1 bank 0 0 extra | g";
    assert_eq!(decode_sense(trailing).unwrap_err(), DecodeError::CountMismatch);
}

#[test]
fn decode_sense_bad_fields() {
    assert_eq!(decode_sense(b"0 1 n zz bank 0 0 | g").unwrap_err(), DecodeError::BadNumber);
    assert_eq!(decode_sense(b"0 1 x 1 bank 0 0 | g").unwrap_err(), DecodeError::BadPartOfSpeech);
    assert_eq!(
        decode_sense(b"0 1 n 1 bank 0 1 ?? 0 n 0 | g").unwrap_err(),
        DecodeError::BadRelationship
    );
    assert_eq!(
        decode_sense(b"0 1 n 1 bank 0 1 @ 0 q 0 | g").unwrap_err(),
        DecodeError::BadPartOfSpeech
    );
    assert_eq!(decode_sense(b"0 1 n 1 bank 0 0").unwrap_err(), DecodeError::MissingGloss);
}

#[test]
fn decode_index_entry() {
    let line = b"bank n 8 0 9 8 10 20 30 40 50 60 70 80";
    let e = decode_index(line).unwrap();
    assert_eq!(e.word, b"bank".to_vec());
    assert_eq!(e.part_of_speech, PartOfSpeech::Noun);
    assert_eq!(e.offsets, vec![10, 20, 30, 40, 50, 60, 70, 80]);
    // pointer symbols between the counts are skipped by arity
    let with_syms = b"bank n 2 3 @ ~ ! 9 2 11 22";
    let e2 = decode_index(with_syms).unwrap();
    assert_eq!(e2.offsets, vec![11, 22]);
    // offset list shorter than the declared synset count
    let bad = b"bank n 2 0 1 0 5";
    assert_eq!(decode_index(bad).unwrap_err(), DecodeError::CountMismatch);
    assert_eq!(decode_index(b"bank q 1 0 1 0 5").unwrap_err(), DecodeError::BadPartOfSpeech);
    assert_eq!(decode_index(b"bank n x 0 1 0 5").unwrap_err(), DecodeError::BadNumber);
}

#[test]
fn database_lookup() {
    let db = noun_db();
    let senses = db.senses("bank").unwrap();
    assert_eq!(senses.len(), 1);
    assert_eq!(senses[0].part_of_speech, PartOfSpeech::Noun);
    assert_eq!(senses[0].gloss, b"a financial institution".to_vec());
    assert_eq!(senses[0].synonyms.len(), 2);
    assert_eq!(senses[0].synonyms[1].word, b"banking company".to_vec());
    // absence is an empty result, not an error
    assert_eq!(db.senses("coast").unwrap().len(), 0);
}

#[test]
fn database_lookup_normalizes() {
    let db = noun_db();
    assert_eq!(db.senses("BANK").unwrap().len(), 1);
    let s = db.senses("Banking Company").unwrap();
    assert_eq!(s.len(), 1);
    assert_eq!(s[0].gloss, b"a financial institution".to_vec());
}

#[test]
fn database_fan_out_concatenates() {
    let db = noun_verb_db();
    let senses = db.senses("bank").unwrap();
    // one sense from each category, in the categories' fixed order
    assert_eq!(senses.len(), 2);
    assert_eq!(senses[0].part_of_speech, PartOfSpeech::Noun);
    assert_eq!(senses[1].part_of_speech, PartOfSpeech::Verb);
    assert_eq!(senses[0].gloss, b"a financial institution".to_vec());
    assert_eq!(senses[1].gloss, b"rely upon".to_vec());
}

#[test]
fn pointer_read_resolves_lazily() {
    let db = noun_db();
    let senses = db.senses("bank").unwrap();
    let ptr = &senses[0].pointers[0];
    assert_eq!(ptr.relationship, Relationship::Hypernym);
    let target = ptr.read().unwrap();
    assert_eq!(target.gloss, b"sloping land".to_vec());
    assert_eq!(target.synonyms[0].word, b"side".to_vec());
    // nothing is cached: a second read yields the same value afresh
    let again = ptr.read().unwrap();
    assert_eq!(again.gloss, target.gloss);
}

#[test]
fn pointer_read_reports_bad_targets() {
    // the pointer target is only touched when read() is called: a sense
    // whose cross-reference points past the end of the data file still
    // decodes, and only resolving it fails
    let data = b"0 1 n 1 bank 0 1 @ 99999 n 0 | a financial institution\n".to_vec();
    let index = b"bank n 1 0 1 0 0\n".to_vec();
    let db = Database::new(vec![DBFile::new(PartOfSpeech::Noun, index, data)]);
    let senses = db.senses("bank").unwrap();
    assert_eq!(senses.len(), 1);
    assert_eq!(senses[0].pointers[0].read().unwrap_err(), DecodeError::OffsetOutOfRange);
}

#[test]
fn pointer_read_missing_category() {
    let data = b"0 1 n 1 bank 0 1 $ 0 v 0 | a financial institution\n".to_vec();
    let index = b"bank n 1 0 1 0 0\n".to_vec();
    let db = Database::new(vec![DBFile::new(PartOfSpeech::Noun, index, data)]);
    let senses = db.senses("bank").unwrap();
    assert_eq!(senses[0].pointers[0].read().unwrap_err(), DecodeError::NoCategoryFile);
}

#[test]
fn database_surfaces_malformed_lines() {
    // the index line declares two offsets but carries one
    let index = b"bank n 2 0 1 0 0\n".to_vec();
    let data = b"0 1 n 1 bank 0 0 | g\n".to_vec();
    let db = Database::new(vec![DBFile::new(PartOfSpeech::Noun, index, data)]);
    assert_eq!(db.senses("bank").unwrap_err(), DecodeError::CountMismatch);
    // an index offset pointing past the end of the data file
    let index2 = b"bank n 1 0 1 0 500\n".to_vec();
    let db2 = Database::new(vec![
        DBFile::new(PartOfSpeech::Noun, index2, b"0 1 n 1 bank 0 0 | g\n".to_vec()),
    ]);
    assert_eq!(db2.senses("bank").unwrap_err(), DecodeError::OffsetOutOfRange);
}

#[test]
fn round_trip_sense_line() {
    // a canonical sense line: decoding and writing the fields back
    // reproduces it
    let line = "0 0 n 2 bank 0 banking_company 1f 1 @ 42 n 0 | a financial institution";
    let s = decode_sense(line.as_bytes()).unwrap();
    let mut rebuilt = String::from("0 0 n ");
    rebuilt.push_str(&format!("{:x}", s.synonyms.len()));
    for syn in &s.synonyms {
        let stored: String = String::from_utf8(syn.word.clone())
            .unwrap()
            .chars()
            .map(|c| if c == ' ' { '_' } else { c })
            .collect();
        rebuilt.push_str(&format!(" {} {:x}", stored, syn.lex_id));
    }
    rebuilt.push_str(&format!(" {}", s.pointers.len()));
    for p in &s.pointers {
        assert_eq!(p.relationship, Relationship::Hypernym);
        rebuilt.push_str(&format!(" @ {} n 0", p.offset));
    }
    rebuilt.push_str(&format!(" | {}", String::from_utf8(s.gloss.clone()).unwrap()));
    assert_eq!(rebuilt, line);
}

#[test]
fn round_trip_index_line() {
    let line = "bank n 2 0 2 0 11 22";
    let e = decode_index(line.as_bytes()).unwrap();
    let mut rebuilt = format!(
        "{} n {} 0 {} 0",
        String::from_utf8(e.word.clone()).unwrap(),
        e.offsets.len(),
        e.offsets.len()
    );
    for off in &e.offsets {
        rebuilt.push_str(&format!(" {}", off));
    }
    assert_eq!(rebuilt, line);
}
