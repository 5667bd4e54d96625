use rcc::string::StringData;

#[test]
fn string_test() {
    {
        // 生成したばかりのインスタンステスト
        let s = StringData::new();
        assert_eq!(s.len, 0);
        assert_eq!(s.size, 64);
    }
    {
        // 一文字追加
        let mut s = StringData::new();
        s.push('a');

        assert_eq!(s.len, 1);
        assert_eq!(s.size, 64);
        assert_eq!(s.buf[0], 'a');
    }
    {
        // 64文字追加.
        let mut s = StringData::new();
        for _ in 0..64 {
            s.push('9');
        }

        assert_eq!(s.len, 64);
        assert_eq!(s.size, 128);
        assert_eq!(s.buf[0], '9');
        assert_eq!(s.buf[63], '9');
    }
    {
        // 65文字追加.
        let mut s = StringData::new();
        for _ in 0..64 {
            s.push('9');
        }
        s.push('1');

        assert_eq!(s.len, 65);
        assert_eq!(s.size, 128);
        assert_eq!(s.buf[0], '9');
        assert_eq!(s.buf[63], '9');
        assert_eq!(s.buf[64], '1');
    }
}
