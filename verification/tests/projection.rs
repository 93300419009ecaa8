use bencode::{
    parse_bencode, parse_torrent, parse_torrent_info, parse_torrent_with, project, BencodeValue,
    DecodeError, Field, FilesInfo, Info, NumeralMode, ProjectError, Torrent, TorrentError,
};

fn info_of(data: &[u8]) -> Result<Info, ProjectError> {
    match parse_bencode(data).unwrap() {
        (rest, BencodeValue::Dictionary(dict)) => {
            assert!(rest.is_empty());
            parse_torrent_info(&dict)
        }
        other => panic!("not a dictionary: {:?}", other),
    }
}

#[test]
fn buffer_that_does_not_decode() {
    assert_eq!(
        parse_torrent(b""),
        Err(TorrentError::Decode(DecodeError::UnexpectedEnd))
    );
    assert_eq!(
        parse_torrent(b"d8:announce"),
        Err(TorrentError::Decode(DecodeError::UnterminatedDictionary))
    );
    assert_eq!(
        parse_torrent(b"d8:announce11:example.com"),
        Err(TorrentError::Decode(DecodeError::UnterminatedDictionary))
    );
    assert_eq!(
        parse_torrent(b"5:ab"),
        Err(TorrentError::Decode(DecodeError::TruncatedString))
    );
}

#[test]
fn root_that_is_no_dictionary() {
    assert_eq!(parse_torrent(b"i5e"), Err(TorrentError::RootNotDictionary));
    assert_eq!(parse_torrent(b"le"), Err(TorrentError::RootNotDictionary));
    assert_eq!(parse_torrent(b"3:foo"), Err(TorrentError::RootNotDictionary));
    assert_eq!(parse_torrent(b"i5exx"), Err(TorrentError::RootNotDictionary));
}

#[test]
fn trailing_bytes_after_the_root() {
    assert_eq!(parse_torrent(b"d1:a3:fooex"), Err(TorrentError::TrailingData));
    assert_eq!(parse_torrent(b"d1:a3:fooede"), Err(TorrentError::TrailingData));
    assert_eq!(parse_torrent(b"de\n"), Err(TorrentError::TrailingData));
    assert_eq!(
        parse_torrent(b"d8:announce11:example.com4:infod4:name9:blindspot12:piece lengthi20e6:pieces5:hello6:lengthi10eee "),
        Err(TorrentError::TrailingData)
    );
}

#[test]
fn announce_failures() {
    assert_eq!(
        parse_torrent(b"de"),
        Err(TorrentError::Project(ProjectError::Missing(Field::Announce)))
    );
    assert_eq!(
        parse_torrent(b"d1:a3:fooe"),
        Err(TorrentError::Project(ProjectError::Missing(Field::Announce)))
    );
    assert_eq!(
        parse_torrent(b"d8:announcei1ee"),
        Err(TorrentError::Project(ProjectError::WrongType(Field::Announce)))
    );
    assert_eq!(
        parse_torrent(b"d8:announce2:\xc3\x28e"),
        Err(TorrentError::Project(ProjectError::InvalidUtf8(Field::Announce)))
    );
}

#[test]
fn info_failures() {
    assert_eq!(
        parse_torrent(b"d8:announce1:ae"),
        Err(TorrentError::Project(ProjectError::Missing(Field::Info)))
    );
    assert_eq!(
        parse_torrent(b"d8:announce1:a4:infoi1ee"),
        Err(TorrentError::Project(ProjectError::WrongType(Field::Info)))
    );
    assert_eq!(
        parse_torrent(b"d8:announce1:a4:infodee"),
        Err(TorrentError::Project(ProjectError::Missing(Field::Name)))
    );
}

#[test]
fn announce_is_looked_at_before_info() {
    assert_eq!(
        parse_torrent(b"d4:infoi1ee"),
        Err(TorrentError::Project(ProjectError::Missing(Field::Announce)))
    );
}

#[test]
fn name_failures() {
    assert_eq!(info_of(b"de"), Err(ProjectError::Missing(Field::Name)));
    assert_eq!(
        info_of(b"d4:namei1ee"),
        Err(ProjectError::WrongType(Field::Name))
    );
    assert_eq!(
        info_of(b"d4:name1:\xffe"),
        Err(ProjectError::InvalidUtf8(Field::Name))
    );
    assert_eq!(
        info_of(b"d4:name2:\xe2\x82e"),
        Err(ProjectError::InvalidUtf8(Field::Name))
    );
}

#[test]
fn piece_length_failures() {
    assert_eq!(
        info_of(b"d4:name1:ae"),
        Err(ProjectError::Missing(Field::PieceLength))
    );
    assert_eq!(
        info_of(b"d4:name1:a12:piece length2:20e"),
        Err(ProjectError::WrongType(Field::PieceLength))
    );
}

#[test]
fn pieces_failures() {
    assert_eq!(
        info_of(b"d4:name1:a12:piece lengthi20ee"),
        Err(ProjectError::Missing(Field::Pieces))
    );
    assert_eq!(
        info_of(b"d4:name1:a12:piece lengthi20e6:piecesi1ee"),
        Err(ProjectError::WrongType(Field::Pieces))
    );
}

#[test]
fn length_that_is_no_integer() {
    assert_eq!(
        info_of(b"d4:name1:a12:piece lengthi20e6:pieces0:6:length2:10e"),
        Err(ProjectError::WrongType(Field::Length))
    );
    assert_eq!(
        info_of(b"d4:name1:a12:piece lengthi20e6:pieces0:6:lengthle5:fileslee"),
        Err(ProjectError::WrongType(Field::Length))
    );
}

#[test]
fn files_failures() {
    assert_eq!(
        info_of(b"d4:name1:a12:piece lengthi20e6:pieces0:e"),
        Err(ProjectError::Missing(Field::Files))
    );
    assert_eq!(
        info_of(b"d4:name1:a12:piece lengthi20e6:pieces0:5:filesi1ee"),
        Err(ProjectError::WrongType(Field::Files))
    );
    assert_eq!(
        info_of(b"d4:name1:a12:piece lengthi20e6:pieces0:5:filesdee"),
        Err(ProjectError::WrongType(Field::Files))
    );
}

#[test]
fn file_entry_failures() {
    assert_eq!(
        info_of(b"d4:name1:a12:piece lengthi20e6:pieces0:5:filesli1eee"),
        Err(ProjectError::WrongType(Field::FileEntry))
    );
    assert_eq!(
        info_of(b"d4:name1:a12:piece lengthi20e6:pieces0:5:filesldeee"),
        Err(ProjectError::Missing(Field::FileLength))
    );
    assert_eq!(
        info_of(b"d4:name1:a12:piece lengthi20e6:pieces0:5:filesld6:length1:xeee"),
        Err(ProjectError::WrongType(Field::FileLength))
    );
    assert_eq!(
        info_of(b"d4:name1:a12:piece lengthi20e6:pieces0:5:filesld6:lengthi1eeee"),
        Err(ProjectError::Missing(Field::FilePath))
    );
    assert_eq!(
        info_of(b"d4:name1:a12:piece lengthi20e6:pieces0:5:filesld6:lengthi1e4:path1:xeee"),
        Err(ProjectError::WrongType(Field::FilePath))
    );
}

#[test]
fn path_segment_failures() {
    assert_eq!(
        info_of(b"d4:name1:a12:piece lengthi20e6:pieces0:5:filesld6:lengthi1e4:pathl1:ai1eeeee"),
        Err(ProjectError::WrongType(Field::PathSegment))
    );
    assert_eq!(
        info_of(b"d4:name1:a12:piece lengthi20e6:pieces0:5:filesld6:lengthi1e4:pathl1:a1:\x80eeee"),
        Err(ProjectError::InvalidUtf8(Field::PathSegment))
    );
}

#[test]
fn first_failure_is_reported() {
    // No name and no pieces: the name is asked for first.
    assert_eq!(
        info_of(b"d12:piece lengthi20ee"),
        Err(ProjectError::Missing(Field::Name))
    );
    // The first file is good, the second has no length, the third is no
    // dictionary.
    assert_eq!(
        info_of(b"d4:name1:a12:piece lengthi20e6:pieces0:5:filesld6:lengthi1e4:pathl1:xeed4:pathl1:yeei1eee"),
        Err(ProjectError::Missing(Field::FileLength))
    );
    // In one file the length is asked for before the path.
    assert_eq!(
        info_of(b"d4:name1:a12:piece lengthi20e6:pieces0:5:filesld4:pathli1eeeee"),
        Err(ProjectError::Missing(Field::FileLength))
    );
    // In one path the first bad segment decides.
    assert_eq!(
        info_of(b"d4:name1:a12:piece lengthi20e6:pieces0:5:filesld6:lengthi1e4:pathl1:\xffi1eeeee"),
        Err(ProjectError::InvalidUtf8(Field::PathSegment))
    );
}

#[test]
fn length_is_taken_and_files_is_not_looked_at() {
    let info = info_of(b"d4:name1:a12:piece lengthi20e6:pieces0:6:lengthi7e5:filesi1ee").unwrap();
    assert_eq!(info, Info::single_file("a".to_string(), 20, vec![], 7));
    assert_eq!(info.length(), Some(7));
    assert_eq!(info.files(), None);
}

#[test]
fn empty_files_list_is_taken() {
    let info = info_of(b"d4:name1:a12:piece lengthi20e6:pieces0:5:fileslee").unwrap();
    assert_eq!(info, Info::multi_file("a".to_string(), 20, vec![], vec![]));
}

#[test]
fn empty_path_is_refused() {
    assert_eq!(
        info_of(b"d4:name1:a12:piece lengthi20e6:pieces0:5:filesld6:lengthi3e4:pathleeee"),
        Err(ProjectError::Empty(Field::FilePath))
    );
    // A good file before it does not help.
    assert_eq!(
        info_of(b"d4:name1:a12:piece lengthi20e6:pieces0:5:filesld6:lengthi3e4:pathl1:xeed6:lengthi3e4:pathleeee"),
        Err(ProjectError::Empty(Field::FilePath))
    );
    // The length is asked for before the path.
    assert_eq!(
        info_of(b"d4:name1:a12:piece lengthi20e6:pieces0:5:filesld4:pathleeee"),
        Err(ProjectError::Missing(Field::FileLength))
    );
    assert_eq!(
        parse_torrent(b"d8:announce1:t4:infod4:name1:a12:piece lengthi20e6:pieces0:5:filesld6:lengthi3e4:pathleeeee"),
        Err(TorrentError::Project(ProjectError::Empty(Field::FilePath)))
    );
    // One segment is enough, and it may be the empty text.
    let info =
        info_of(b"d4:name1:a12:piece lengthi20e6:pieces0:5:filesld6:lengthi3e4:pathl0:eeee").unwrap();
    assert_eq!(
        info,
        Info::multi_file(
            "a".to_string(),
            20,
            vec![],
            vec![FilesInfo {
                length: 3,
                path: vec!["".to_string()]
            }]
        )
    );
}

#[test]
fn torrent_in_strict_mode() {
    let canonical = b"d8:announce11:example.com4:infod4:name9:blindspot12:piece lengthi20e6:pieces5:hello6:lengthi10eee";
    assert_eq!(
        parse_torrent_with(canonical, NumeralMode::Strict),
        parse_torrent(canonical)
    );
    assert_eq!(
        parse_torrent_with(canonical, NumeralMode::Lenient),
        parse_torrent(canonical)
    );
    assert!(parse_torrent(canonical).is_ok());

    let padded = b"d8:announce11:example.com4:infod4:name9:blindspot12:piece lengthi020e6:pieces5:hello6:lengthi10eee";
    assert_eq!(parse_torrent(padded), parse_torrent(canonical));
    assert_eq!(
        parse_torrent_with(padded, NumeralMode::Strict),
        Err(TorrentError::Decode(DecodeError::InvalidInteger))
    );
    assert_eq!(
        parse_torrent_with(b"d1:a3:fooex", NumeralMode::Strict),
        Err(TorrentError::TrailingData)
    );
}

#[test]
fn several_files_keep_their_order() {
    let info = info_of(
        b"d5:filesld6:lengthi1e4:pathl1:a1:beed4:pathl1:ce6:lengthi2eee4:name3:dir12:piece lengthi4e6:pieces2:xye",
    )
    .unwrap();
    assert_eq!(
        info,
        Info::multi_file(
            "dir".to_string(),
            4,
            vec![b'x', b'y'],
            vec![
                FilesInfo {
                    length: 1,
                    path: vec!["a".to_string(), "b".to_string()]
                },
                FilesInfo {
                    length: 2,
                    path: vec!["c".to_string()]
                },
            ]
        )
    );
    assert_eq!(info.length(), None);
    assert_eq!(info.files().map(|files| files.len()), Some(2));
}

#[test]
fn getters_give_the_fields() {
    let info = Info::single_file("blindspot".to_string(), 20, vec![1, 2, 3], 10);
    assert_eq!(info.name(), "blindspot");
    assert_eq!(info.piece_length(), 20);
    assert_eq!(info.pieces(), &vec![1, 2, 3]);
    assert_eq!(info.length(), Some(10));
    assert_eq!(info.files(), None);

    let files = vec![FilesInfo {
        length: 10,
        path: vec!["path1".to_string()],
    }];
    let info = Info::multi_file("blindspot".to_string(), 20, vec![], files.clone());
    assert_eq!(info.name(), "blindspot");
    assert_eq!(info.piece_length(), 20);
    assert_eq!(info.pieces(), &Vec::<u8>::new());
    assert_eq!(info.length(), None);
    assert_eq!(info.files(), Some(&files));
}

#[test]
fn single_file_and_directory_differ() {
    assert_ne!(
        Info::single_file("a".to_string(), 1, vec![], 0),
        Info::multi_file("a".to_string(), 1, vec![], vec![])
    );
}

#[test]
fn integers_are_cast_to_counts() {
    let info = info_of(b"d4:name1:a12:piece lengthi-1e6:pieces0:6:lengthi-2ee").unwrap();
    assert_eq!(info.piece_length(), -1i64 as usize);
    assert_eq!(info.piece_length(), usize::MAX);
    assert_eq!(info.length(), Some(-2i64 as usize));

    let info = info_of(b"d4:name1:a12:piece lengthi0e6:pieces0:6:lengthi9223372036854775807ee")
        .unwrap();
    assert_eq!(info.piece_length(), 0);
    assert_eq!(info.length(), Some(i64::MAX as usize));

    let info =
        info_of(b"d4:name1:a12:piece lengthi1e6:pieces0:5:filesld6:lengthi-1e4:pathl1:xeeee").unwrap();
    assert_eq!(
        info.files(),
        Some(&vec![FilesInfo {
            length: usize::MAX,
            path: vec!["x".to_string()]
        }])
    );
}

#[test]
fn text_is_decoded_as_utf8() {
    let torrent = parse_torrent(
        "d8:announce8:tr\u{e4}cker4:infod4:name6:\u{65e5}\u{672c}12:piece lengthi1e6:pieces2:\u{e9}5:filesld6:lengthi0e4:pathl4:\u{1f600}eeeee"
            .as_bytes(),
    )
    .unwrap();
    assert_eq!(
        torrent,
        Torrent {
            announce: "tr\u{e4}cker".to_string(),
            info: Info::multi_file(
                "\u{65e5}\u{672c}".to_string(),
                1,
                vec![0xc3, 0xa9],
                vec![FilesInfo {
                    length: 0,
                    path: vec!["\u{1f600}".to_string()]
                }]
            )
        }
    );
}

#[test]
fn pieces_need_not_be_text() {
    let info = info_of(b"d4:name1:a12:piece lengthi1e6:pieces3:\xff\x00\xfe6:lengthi0ee").unwrap();
    assert_eq!(info.pieces(), &vec![0xff, 0x00, 0xfe]);
}

#[test]
fn keys_are_matched_exactly() {
    assert_eq!(
        info_of(b"d4:Name1:a5:name 1:a3:nam1:ae"),
        Err(ProjectError::Missing(Field::Name))
    );
    assert_eq!(
        info_of(b"d4:name1:a12:piece_lengthi20ee"),
        Err(ProjectError::Missing(Field::PieceLength))
    );
}

#[test]
fn project_reads_a_root_dictionary() {
    let data = b"d8:announce11:example.com4:infod4:name9:blindspot12:piece lengthi20e6:pieces5:hello6:lengthi10eee";
    match parse_bencode(data).unwrap() {
        (_, BencodeValue::Dictionary(root)) => assert_eq!(
            project(&root),
            Ok(Torrent {
                announce: "example.com".to_string(),
                info: Info::single_file(
                    "blindspot".to_string(),
                    20,
                    b"hello".to_vec(),
                    10
                )
            })
        ),
        other => panic!("not a dictionary: {:?}", other),
    }
}

#[test]
fn parsing_a_torrent_twice_gives_equal_records() {
    let data = b"d8:announce11:example.com4:infod4:name9:blindspot12:piece lengthi20e6:pieces5:hello5:filesld6:lengthi10e4:pathl5:path15:path2eeeee";
    assert_eq!(parse_torrent(data), parse_torrent(data));
}

#[test]
fn messages_of_schema_failures() {
    assert_eq!(
        ProjectError::Missing(Field::Announce).message(),
        "Missing announce url"
    );
    assert_eq!(
        ProjectError::WrongType(Field::Info).message(),
        "Invalid torrent info field"
    );
    assert_eq!(
        ProjectError::InvalidUtf8(Field::Name).message(),
        "Invalid utf-8 bytes in info name"
    );
    assert_eq!(
        ProjectError::Missing(Field::PieceLength).message(),
        "Missing info piece length"
    );
    assert_eq!(
        ProjectError::WrongType(Field::Pieces).message(),
        "Invalid pieces info"
    );
    assert_eq!(
        ProjectError::WrongType(Field::Length).message(),
        "Invalid info length"
    );
    assert_eq!(
        ProjectError::Missing(Field::Files).message(),
        "Missing info files"
    );
    assert_eq!(
        ProjectError::WrongType(Field::FileEntry).message(),
        "Invalid fileinfo"
    );
    assert_eq!(
        ProjectError::Missing(Field::FileLength).message(),
        "Missing fileinfo length"
    );
    assert_eq!(
        ProjectError::WrongType(Field::FilePath).message(),
        "Invalid fileinfo path"
    );
    assert_eq!(
        ProjectError::InvalidUtf8(Field::PathSegment).message(),
        "Invalid utf-8 bytes in path item"
    );
    assert_eq!(
        ProjectError::Empty(Field::FilePath).message(),
        "Empty fileinfo path"
    );
    assert_eq!(ProjectError::Empty(Field::FilePath).field(), Field::FilePath);
    assert_eq!(ProjectError::Missing(Field::Files).field(), Field::Files);
    assert_eq!(Field::PathSegment.name(), "path item");
}

#[test]
fn messages_of_torrent_failures() {
    assert_eq!(
        TorrentError::Decode(DecodeError::UnterminatedList).message(),
        "Unterminated list"
    );
    assert_eq!(
        TorrentError::RootNotDictionary.message(),
        "Expected root element to be a BDictionary"
    );
    assert_eq!(
        TorrentError::TrailingData.message(),
        "Trailing bytes after root element"
    );
    assert_eq!(
        TorrentError::Project(ProjectError::Missing(Field::Info)).message(),
        "Missing torrent info field"
    );
}

#[test]
fn records_differ_where_a_field_differs() {
    let file = |length: usize, path: &[&str]| FilesInfo {
        length,
        path: path.iter().map(|segment| segment.to_string()).collect(),
    };
    assert_eq!(file(1, &["a", "b"]), file(1, &["a", "b"]));
    assert_eq!(file(1, &["a", "b"]).clone(), file(1, &["a", "b"]));
    assert_ne!(file(1, &["a", "b"]), file(2, &["a", "b"]));
    assert_ne!(file(1, &["a", "b"]), file(1, &["a", "c"]));
    assert_ne!(file(1, &["a", "b"]), file(1, &["a"]));
    assert_ne!(file(1, &["a", "b"]), file(1, &["b", "a"]));
    assert_ne!(file(1, &[]), file(1, &[""]));

    let single = |name: &str, piece_length: usize, pieces: &[u8], length: usize| {
        Info::single_file(name.to_string(), piece_length, pieces.to_vec(), length)
    };
    assert_eq!(single("a", 1, b"xy", 2), single("a", 1, b"xy", 2));
    assert_ne!(single("a", 1, b"xy", 2), single("b", 1, b"xy", 2));
    assert_ne!(single("a", 1, b"xy", 2), single("a", 3, b"xy", 2));
    assert_ne!(single("a", 1, b"xy", 2), single("a", 1, b"xz", 2));
    assert_ne!(single("a", 1, b"xy", 2), single("a", 1, b"x", 2));
    assert_ne!(single("a", 1, b"xy", 2), single("a", 1, b"xy", 3));

    let multi = |files: Vec<FilesInfo>| Info::multi_file("a".to_string(), 1, vec![], files);
    assert_eq!(multi(vec![file(1, &["a"])]), multi(vec![file(1, &["a"])]));
    assert_ne!(multi(vec![file(1, &["a"])]), multi(vec![file(1, &["b"])]));
    assert_ne!(multi(vec![file(1, &["a"])]), multi(vec![]));
    assert_ne!(
        multi(vec![file(1, &["a"]), file(2, &["b"])]),
        multi(vec![file(2, &["b"]), file(1, &["a"])])
    );

    let torrent = |announce: &str, info: Info| Torrent {
        announce: announce.to_string(),
        info,
    };
    assert_eq!(
        torrent("t", single("a", 1, b"", 0)),
        torrent("t", single("a", 1, b"", 0))
    );
    assert_ne!(
        torrent("t", single("a", 1, b"", 0)),
        torrent("u", single("a", 1, b"", 0))
    );
    assert_ne!(
        torrent("t", single("a", 1, b"", 0)),
        torrent("t", single("a", 1, b"", 1))
    );
}
