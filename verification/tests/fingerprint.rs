use mfhash::MFHash;
use mfhash::mkfs;
use mfhash::similarity;

#[test]
fn mfhash_test() {
    let string: &str = "research";
    let hash: String = MFHash::new(string, 2).to_string();
    assert_eq!(hash, "r2e2");

    let string1 = "significant";
    let hash2: String = MFHash::new(string1, 2).to_string();
    assert_eq!(hash2, "i3n2");

    let string2 = "capabilities";
    let hash2: String = MFHash::new(string2, 2).to_string();
    assert_eq!(hash2, "i3a2");

    let string3 = "aaaaabbbb";
    let hash3: String = MFHash::new(string3, 2).to_string();
    assert_eq!(hash3, "a5b4");

    let string4 = "a";
    let hash3: String = MFHash::new(string4, 2).to_string();
    assert_eq!(hash3, "a1");
}

#[test]
fn mfhash_test_fasta() {
    let string: &str = "LCLYTHIGRNIYYGSYLYSETWNTGIMLLLITMATAFMGYVLPWGQMSFWGATVITNLFSAIPYIGTNLV";
    let hash: String = MFHash::new(string, 2).to_string();
    assert_eq!(hash, "L9T8");

    let string2: &str = "EWIWGGFSVDKATLNRFFAFHFILPFTMVALAGVHLTFLHETGSNNPLGLTSDSDKIPFHPYYTIKDFLG";
    let hash2: String = MFHash::new(string2, 2).to_string();
    assert_eq!(hash2, "F9L8");
}

#[test]
fn mkfs_test() {
    let string1 = "significant";
    let string2 = "capabilities";
    let similarity: u32 = mkfs(string1, string2, 2, Some(10));
    assert_eq!(similarity, 7);

    let string3 = "research";
    let string4 = "seeking";
    let similarity: u32 = mkfs(string3, string4, 2, None);
    assert_eq!(similarity, 2);

    let string5 = "research";
    let string6 = "research";
    let similarity: u32 = mkfs(string5, string6, 2, Some(10));
    assert_eq!(similarity, 6);

    let string7 = "nicht";
    let string8 = "nacht";
    let similarity: u32 = mkfs(string7, string8, 2, Some(10));
    assert_eq!(similarity, 9);

    let string9 = "my";
    let string10 = "a";
    let similarity: u32 = mkfs(string9, string10, 2, Some(10));
    assert_eq!(similarity, 10);
}

#[test]
fn mkfs_test_fasta() {
    let string: &str = "LCLYTHIGRNIYYGSYLYSETWNTGIMLLLITMATAFMGYVLPWGQMSFWGATVITNLFSAIPYIGTNLV";
    let string2: &str = "EWIWGGFSVDKATLNRFFAFHFILPFTMVALAGVHLTFLHETGSNNPLGLTSDSDKIPFHPYYTIKDFLG";
    let similarity: u32 = mkfs(string, string2, 2, Some(100));
    assert_eq!(similarity, 83);
}

#[test]
fn similarity_test() {
    let hash1: MFHash = MFHash::decode("n1i1").unwrap();
    let hash2: MFHash = MFHash::decode("n1a1").unwrap();

    let result: u32 = similarity(&hash1, &hash2);
    assert_eq!(result, 1);

    let hash3: MFHash = MFHash::decode("L9T8").unwrap();
    let hash4: MFHash = MFHash::decode("F9L8").unwrap();
    let result2: u32 = similarity(&hash3, &hash4);
    assert_eq!(result2, 17);

    let hash5: MFHash = MFHash::decode("r2e2").unwrap();
    let hash6: MFHash = MFHash::decode("r2e2").unwrap();

    let result: u32 = similarity(&hash5, &hash6);
    assert_eq!(result, 4);

    let hash7: MFHash = MFHash::decode("r2e2").unwrap();
    let hash8: MFHash = MFHash::decode("e2s1").unwrap();

    let result: u32 = similarity(&hash7, &hash8);
    assert_eq!(result, 2);
}
