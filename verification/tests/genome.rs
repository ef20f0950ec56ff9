use tetrust::genome::{parse_genome, GenomeError};

#[test]
fn genome_in_brackets() {
    assert_eq!(parse_genome("[100,1,10,100]"), Ok([100, 1, 10, 100]));
    assert_eq!(parse_genome("100,1,10,100"), Ok([100, 1, 10, 100]));
    assert_eq!(parse_genome("0 0 0 0"), Ok([0, 0, 0, 0]));
    assert_eq!(parse_genome("255-254-253-252"), Ok([255, 254, 253, 252]));
    assert_eq!(parse_genome("  [[7;8;9;10]]  "), Ok([7, 8, 9, 10]));
    assert_eq!(parse_genome("001,0002,03,4"), Ok([1, 2, 3, 4]));
    assert_eq!(parse_genome("é1é2、3→4é"), Ok([1, 2, 3, 4]));
    assert_eq!(parse_genome("a1b2c3d4e"), Ok([1, 2, 3, 4]));
}

#[test]
fn genome_with_a_number_too_large() {
    assert_eq!(parse_genome("256,1,1,1"), Err(GenomeError::NotANumber));
    assert_eq!(parse_genome("1,1,1,1000"), Err(GenomeError::NotANumber));
    assert_eq!(
        parse_genome("1,1,99999999999999999999999999999999999999,1"),
        Err(GenomeError::NotANumber)
    );
    assert_eq!(parse_genome("1,2,3,4,256"), Err(GenomeError::NotANumber));
}

#[test]
fn genome_with_a_gap_between_numbers() {
    assert_eq!(parse_genome("1, 2, 3, 4"), Err(GenomeError::NotANumber));
    assert_eq!(parse_genome("1,,2,3"), Err(GenomeError::NotANumber));
    assert_eq!(parse_genome("1,2,3,,4"), Err(GenomeError::NotANumber));
}

#[test]
fn genome_without_a_number() {
    assert_eq!(parse_genome(""), Err(GenomeError::NotANumber));
    assert_eq!(parse_genome("[]"), Err(GenomeError::NotANumber));
    assert_eq!(parse_genome("genome"), Err(GenomeError::NotANumber));
}

#[test]
fn genome_of_the_wrong_length() {
    assert_eq!(parse_genome("1"), Err(GenomeError::WrongLength));
    assert_eq!(parse_genome("[1,2,3]"), Err(GenomeError::WrongLength));
    assert_eq!(parse_genome("[1,2,3,4,5]"), Err(GenomeError::WrongLength));
    assert_eq!(
        parse_genome("0,0,0,0,0,0,0,0"),
        Err(GenomeError::WrongLength)
    );
}
