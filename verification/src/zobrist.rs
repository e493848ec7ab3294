//! Zobrist keys: the random numbers whose exclusive-or identifies a position.
//! The tables hold the successive outputs of the xorshift generator `next_rand`
//! from fixed seeds (one seed per table), row 0 of the piece table being empty squares.
use vstd::prelude::*;

verus! {

/// One step of the xorshift64 generator.
pub open spec fn xorshift(s: u64) -> u64 {
    let a = s ^ (s << 13u64);
    let b = a ^ (a >> 7u64);
    b ^ (b << 17u64)
}

/// The state after `n` steps from `seed`.
pub open spec fn xorshift_iter(seed: u64, n: nat) -> u64
    decreases n,
{
    if n == 0 {
        seed
    } else {
        xorshift(xorshift_iter(seed, (n - 1) as nat))
    }
}

/// Advances the generator state and returns the new state.
pub fn next_rand(state: &mut u64) -> (r: u64)
    ensures
        *final(state) == xorshift(*old(state)),
        r == *final(state),
{
    *state = *state ^ (*state << 13u64);
    *state = *state ^ (*state >> 7u64);
    *state = *state ^ (*state << 17u64);
    *state
}

/// The first `n` outputs of the generator started at `seed`.
pub fn xorshift_sequence(seed: u64, n: usize) -> (v: Vec<u64>)
    ensures
        v@.len() == n,
        forall|i: int| 0 <= i < n ==> #[trigger] v@[i] == xorshift_iter(seed, (i + 1) as nat),
{
    let mut v: Vec<u64> = Vec::new();
    let mut state = seed;
    let mut i: usize = 0;
    while i < n
        invariant
            i <= n,
            v@.len() == i,
            state == xorshift_iter(seed, i as nat),
            forall|j: int| 0 <= j < i ==> #[trigger] v@[j] == xorshift_iter(seed, (j + 1) as nat),
        decreases n - i,
    {
        let r = next_rand(&mut state);
        v.push(r);
        i = i + 1;
    }
    v
}

pub const ZOBRIST_PIECE: [[u64; 64]; 13] = [
    [
        0x0000000000000000, 0x0000000000000000, 0x0000000000000000, 0x0000000000000000,
        0x0000000000000000, 0x0000000000000000, 0x0000000000000000, 0x0000000000000000,
        0x0000000000000000, 0x0000000000000000, 0x0000000000000000, 0x0000000000000000,
        0x0000000000000000, 0x0000000000000000, 0x0000000000000000, 0x0000000000000000,
        0x0000000000000000, 0x0000000000000000, 0x0000000000000000, 0x0000000000000000,
        0x0000000000000000, 0x0000000000000000, 0x0000000000000000, 0x0000000000000000,
        0x0000000000000000, 0x0000000000000000, 0x0000000000000000, 0x0000000000000000,
        0x0000000000000000, 0x0000000000000000, 0x0000000000000000, 0x0000000000000000,
        0x0000000000000000, 0x0000000000000000, 0x0000000000000000, 0x0000000000000000,
        0x0000000000000000, 0x0000000000000000, 0x0000000000000000, 0x0000000000000000,
        0x0000000000000000, 0x0000000000000000, 0x0000000000000000, 0x0000000000000000,
        0x0000000000000000, 0x0000000000000000, 0x0000000000000000, 0x0000000000000000,
        0x0000000000000000, 0x0000000000000000, 0x0000000000000000, 0x0000000000000000,
        0x0000000000000000, 0x0000000000000000, 0x0000000000000000, 0x0000000000000000,
        0x0000000000000000, 0x0000000000000000, 0x0000000000000000, 0x0000000000000000,
        0x0000000000000000, 0x0000000000000000, 0x0000000000000000, 0x0000000000000000,
    ],
    [
        0xfe800d6569fa1b4d, 0x0ce7c497a6b09c3b, 0x41dfb69a11db93c3, 0x6cf2af81492cb424,
        0x3e23af875e8f644c, 0x8ef8dc1bcc6ae984, 0x31ea2a2c06d6dd57, 0x9f00942eba9cc52d,
        0x1f69f901f7b317e7, 0x88f9a0b2aa756808, 0xe9b9d4e2feca80d8, 0x52d873359e3e23d9,
        0x26e0c090ad4d89de, 0x5fa9ec0e24d4a54d, 0x93674afe6793ff47, 0x94ccf797d2b9e979,
        0xe99cad48a79fe4eb, 0xd95d89a12e7081e2, 0x96d6bf5750f25861, 0x1a793e7080eb8491,
        0xbdae1703842957d8, 0x8923bc564561f377, 0xb37339e1955b0d51, 0xff5f576dff0ecf0b,
        0x0f23f019de087055, 0x655c490aca48d5f5, 0x396344cc656b991e, 0x2aba9538473cc9ac,
        0x3525658ed7cb5b3f, 0xb4b531a29747e249, 0xd1bd9e3d4042dfcd, 0xe60c214163e80932,
        0xe8ac7131b14bd5a0, 0xc16aa746ae7e2a0b, 0x787185be10d7349f, 0xde00b47b05c45d36,
        0x5fcad996b966580c, 0xf9bff3a129fb17bc, 0x85a2ae066abc8e93, 0x9eec16a73e04334e,
        0x1d0a6ebf264d28a8, 0x32b8eddf5fac98f9, 0x2f103273263adf88, 0xfd3ec079855e4837,
        0x031c42b3da0e1967, 0xd15f57a0843abc95, 0x188f29b705574cac, 0x895d14b945714935,
        0x7b432d71cf4146e7, 0x83b16615ef069daa, 0xd6a891d7a2e8ba11, 0x479800c23e8bcf25,
        0xc835845e0217b1fb, 0x0966a315cd708058, 0xf9a3470c44717758, 0x045a9683e92343b6,
        0xaac662de9f3528b1, 0x72e41ef4d7174ea0, 0x12e4d46382c4c83d, 0x639eae9ab02eeeed,
        0x71fdc53f03c8a870, 0xead1a4dad0ab2520, 0x09923dfc5db33b6a, 0x94fcb0712193c79c,
    ],
    [
        0xe020ceced1f48713, 0x35b9a5f0342ecadd, 0x5963a16c06bf8008, 0x56e5bf5f7b43fd08,
        0x79e299411b0f38f2, 0x7436548609ef5a03, 0x0efaf2445d846477, 0x6a1d6c561a56917f,
        0xc69d6391f6d3839d, 0x6dd8a0abd61963da, 0xfa8616f1e4ace79d, 0x0c49fb6f428bf912,
        0x8572d8bd9512ea60, 0x9e4e4f5758a657b4, 0x8d1dc7e3f942761b, 0xc2fe3a6608801437,
        0x38b852a515acf9df, 0x61687ef4c45a37ec, 0x790d70f68ca4f883, 0xdafc290734f7f1b2,
        0xb36e84ae9cf632d1, 0x2000d5acaff14af4, 0x6f646d9709609561, 0xa057fa5435ed2c0b,
        0xd383c0896a6a9493, 0x3afaa90dba7d057a, 0x3ff995b15d07e1f0, 0x4f8e259aa61d9233,
        0x9d5c475d2ddd45d7, 0x0fda1df99d556a9c, 0x84e2c8c258f4e749, 0x31f78df0841bfcc7,
        0xdd5b36a129881afe, 0xa19618b3e014754b, 0xaab57cb8d2a26f61, 0x416aaec0e18ed3ff,
        0xbbb264997ab6d198, 0xe47f76d18bb2da3b, 0x10e133803dca514f, 0x1a5e1c49e956762d,
        0xc6274c9802def181, 0x675f92f443130c22, 0xa56d0507cba662ba, 0xcad1a4766000c0ff,
        0x52eeff78a9931ebe, 0x5f27563ef1d65703, 0x26a32f94859a5b6d, 0x7b641e8da85c149b,
        0x78e68de4f27eea72, 0xe7105551ef22cb26, 0xd4a8a631d34a8730, 0x432e24378ed7de3e,
        0x8e2adbb2d3fe3e02, 0xa56b24e28bea02fe, 0xf69d7331a6d4a97b, 0x3a837a5c984e3ee9,
        0xa46c92df848438d4, 0x2f4c37b896d385a5, 0x0eb8147ff477ebee, 0x06665314946a3fb9,
        0x5da9086eab362586, 0x55396a01afc3e84d, 0x2205ef9998d5dcdd, 0xfcbd7b2be540e024,
    ],
    [
        0x3c664ae12f7ee8e4, 0xc371c4ddb7ecac35, 0xb7956299d274d82d, 0xb33c1ba1d2599add,
        0x537ad82949903ea8, 0x159dff4a1173b4d5, 0x031d0a5322dec6fc, 0x22ba173e63174471,
        0xa14905f69ffc56b9, 0xf3be37a747a92054, 0xa0f9c425094ce714, 0xa6c086ccfb313bda,
        0xe046387c57a8ef2d, 0x64df905ff3bfd5b3, 0x1a1174c314aba6d8, 0x3c159d1a439a4795,
        0xff2e0a3fb5ca365a, 0x60ead2b1178b74b6, 0x29887a7fe6518fdf, 0x35fb71b2ca053b00,
        0x3e3da1dc6b53f176, 0xcaccd240ef7fcb14, 0xdc455652ab357182, 0x4c06c72c1acd3be1,
        0x90302f69a56679d6, 0xd71360e2e1c200a5, 0xff3f0b890f5d0de4, 0x721e614ef6424eff,
        0x1eb8b53c99a695a2, 0x3887af4dbb96f009, 0x44eaf2b6e40effa9, 0xb65ffd7305a02816,
        0xb49b63bbd52fadc6, 0x5b05f8809aec431d, 0x65c8915f511cfcdb, 0x0c18d3bf10de93e2,
        0xc9ccf988a7ad9645, 0x7b1fc838171dfc29, 0x7580c4ddc4ebed91, 0xf8b13aeec43f7e0a,
        0xa908c8fe7d45c276, 0xe3c7f85a40651472, 0x4e99b76b4a9a82da, 0x178ce26ce84a415f,
        0x71e02bd9af1b621d, 0x247f45ba51ec7399, 0xf2603fd80a5c6d3e, 0xe5ad4906143c5a64,
        0x6d39a80aebee3bd0, 0x51b30107e58313a7, 0x85690bbcd0781c40, 0xfc77c43f4ca7fc78,
        0x9f18056dbf4ead80, 0x2d481db7c39d50db, 0x1ebcdaa598213cba, 0xf60640e0dc4f1043,
        0xe1d9b7a8117dfea3, 0x0f5baf053ac8cd9e, 0x86d748376c37fb85, 0x62fbe6395a05d532,
        0x77c69226b752d218, 0x2443a9d297b3f1bc, 0x407e487c52e9795f, 0xcb295fd707e31c6d,
    ],
    [
        0xd1b87d19f08c6115, 0x34bbad2155799c97, 0x309f4ccc2efaaa6e, 0x51b67e01543404ba,
        0xef170e3adf6c0233, 0xe43416549c7a36f7, 0x9793a2f353a59f5a, 0x44278c0a6a4642e4,
        0xad4dc27dc99cf761, 0xea59e804a64036cf, 0x4a9dbd84f31ce562, 0x0f963b7f293fc428,
        0x92a0edd70359b1a0, 0xfd4aa3a998816ac3, 0x775c62fdb71eb8d6, 0x5d996a3ebc8a7027,
        0x71965a03b7658d07, 0xbace31271772e7dd, 0x70ceb45273ba5552, 0x40aa951519923578,
        0x5eba054d8fa74f12, 0x398fbac31e91850c, 0x220c6e7bc6606506, 0x8fa9da30edcd244c,
        0x858aafaa01de2d04, 0xf142dfa2474a505e, 0x5f28ccd3bda7137e, 0xfa1cfcff14c742d8,
        0x55fe7e91c7df7a5d, 0xa6d5e76d1b17f3e9, 0x7303c1c7f63c064e, 0x99d1a54e2d9c2dc2,
        0x8c5a36d419462519, 0xa23bfc2aba78cf13, 0x706307885c479a4d, 0x408274b8e2222639,
        0x8a53fd7cc7c2cc35, 0xce88b3be5ea2e4ed, 0xd47b2aeca2f33a64, 0x57dbb3a62a14c510,
        0x71fedfae2ae7a89a, 0xb2d1785138dd014b, 0x4f08f27f1ed78989, 0x6ee8d7f46d8d64da,
        0x991ce3d95bb20893, 0x0b118e1414112842, 0x6fb89079a85f5a92, 0xe93d852ea6c500a7,
        0x9b80b4ed6c104366, 0xcabc56354e747a60, 0x54f2677023920a94, 0xafa497ce71070b81,
        0xfb9d79f2c6fbc5d6, 0x9ad5ad14ea8787dd, 0x9360fab52d6cdf92, 0xea633c41c2a9a2ad,
        0x28c96c3f2a41faa8, 0x2d8fe2185d84d35d, 0x30985cbacd16adbb, 0x0d5d4a3334d08e20,
        0x90b3f44d3926a73c, 0xa0785bfa74fea572, 0x9ccfcd6fe26044b8, 0x8f2baf04f940aa31,
    ],
    [
        0xb7a7cdf1bb948725, 0xdc69933ba3f0c76b, 0x1ac49a5c08219c25, 0x824112ca6768765d,
        0x7c6e207a049291f1, 0xfd42ae2a5725e892, 0x7fd804c0f865c7c3, 0x48492bc2e1049c8c,
        0x47f079eddb1a36b5, 0xfa4b58e59fc70f98, 0x19e3cd5b8bc66787, 0x3a3e2e2ad4a8ea88,
        0xfaa9ee8284d0195d, 0x5c3e208c2aaa4e2f, 0x6c3a59c0334f7173, 0x916146a12879d351,
        0xaa149506e759d4b7, 0x7a392d9753c8aade, 0xfff7e45d02084c0b, 0x7a52dba84f383e53,
        0x1ab2312ca3bdbaef, 0x480dcf82967d9a5a, 0x3cf1188ed0a0b7ee, 0x19e0e4bc69d3cd01,
        0x0bd7bff309e50adb, 0xe735e2ac1bf3160e, 0x19f51a90ba84b3a2, 0x3c651a8988231245,
        0x19bfa0a43bfd6521, 0x0f58317bcf21f7ab, 0x45783a60b33f3e84, 0xca0ef0d399b461f9,
        0x41f915a27154577a, 0xe1f415a728e46154, 0x8133d6542aab7c96, 0xb9402ec0d86dcfef,
        0xb6acf300e4330fb0, 0xc42e67c4839085af, 0xbc74a65fa0cb2f64, 0x712abdb988d9e03a,
        0x49a754d5cb431d7a, 0x8eb6311dd83d85c0, 0x0a1819a741c28ecb, 0x59c6f40b9c17d916,
        0x9745e37093b37324, 0x66b446bc49a85cc2, 0xff93a97ea9427cfb, 0x82f5928f0694a6c2,
        0x45b76869d7767f0f, 0xe5af0b6f76c4b031, 0xc4327e7aa5211511, 0x2bfca5935c7a337b,
        0x193017c2d19b79dd, 0xa12b66d16d01986e, 0x9fa5d0873d0c40de, 0x9f6fadb3a7c3afdf,
        0xbffee1c13b1c3f40, 0xf55eb83457f1d73e, 0x274371378fec3b10, 0xde6072f5d2532766,
        0xbbc3268bf88298a8, 0x24fd44a9f3f2b799, 0xd934beb5232794b6, 0xf3b73ac01e2c361f,
    ],
    [
        0xda29c0cb80b809b3, 0x408ea0a7d24d7560, 0x49042e6acf0cb78a, 0x07987bf857840c65,
        0x772330a3bddebd3d, 0x42399ccd84a3ef07, 0xa941f96258838919, 0x456cf2f11d65e84b,
        0xb37a82a7b99a515b, 0xb0179dd37c245339, 0x104c1aecb211f5df, 0xcd580cd1525b41f4,
        0x88f5bef51aff0a77, 0xa876171cbd0089a3, 0x3d3b0164d58c8070, 0x34686af1e5e98570,
        0x4c84a33a58190a7a, 0x868038a0c678e6ee, 0x90c9020fdc566ca3, 0x6105dfb50a9588ba,
        0xeb7271f1eea3cd2b, 0x0d7d6cec9ccaa071, 0xdcb7782131b70971, 0x4283c6dbc97e1b23,
        0x273bca977da44fd5, 0xb006900517a2520a, 0x1feb40251704d42e, 0x0d0030342a961606,
        0x7b08f300d2d27baa, 0x14b269b0c32675dd, 0xab58323a796aee76, 0x2b9f5637c6b9662a,
        0xfba14aec9764de66, 0x903938d290054e5a, 0xee42177cb9319246, 0x1b40a7857faba0e2,
        0xdf6ebf21f5e68f23, 0x21a7a80bcbb0eafd, 0xecb1c65a05929468, 0x32197c86d131ab40,
        0x7669fecf95bd1816, 0x91e2e1c5899ea7a6, 0x04ee87f6d702b369, 0x2ee1257634f34c4f,
        0xf20467af3fee5917, 0xb8a8c11811ef2065, 0x088da8b330c24765, 0x4e8ca48b5b88baab,
        0x336284ed7a78611e, 0xc8d2b09b1e0f165c, 0x3e04c28677dd1f70, 0xefd2fb53dd07794e,
        0x523c59671c32e43c, 0xef8b9ffc9fdc0ef4, 0x5572c46207ec8be9, 0xfec82aefb8c088be,
        0x16fa7b458adae62f, 0x863438ec9bf53823, 0xf0a1c9d46daeba93, 0x2dda81fb3fc52326,
        0x268114e2dd56a0e0, 0xefb84766f21a35a1, 0x86b5cf996cd3498a, 0xe0b6681498dbcd99,
    ],
    [
        0x081c6fad862e3c42, 0x9d4f2e9cf05130ba, 0x6b827e22035cfc5b, 0x4064ade969283363,
        0xb3e9dcf84010dbc5, 0xfbc166eef9baab32, 0xd7e6bfa0ba4d52e4, 0x1b6309db20b3f141,
        0xc081555b09e0e6e3, 0x2be1d62224caffee, 0xa23bc21caee35191, 0x95122ddee3bcd372,
        0x959cf40847893654, 0x850ae002f1f13138, 0x8e39f7b394cd9d5a, 0x85eefc7052e810e0,
        0x3556236afbd7f8c1, 0xe5094364aa264770, 0xf7e759978df1d7fe, 0x1a1fcbb9f3c20bd1,
        0xaafa479086d15b86, 0x6c0436118998d8b1, 0xfd4a247b1d2be540, 0x221577d01854e28a,
        0xd990c8286293a9cf, 0x1ef128f8d93d1d5c, 0xe4e8677fa4afb066, 0xd04c90c1eb0a3686,
        0x4b27ddf96a57436b, 0x335c0b2e4b64572d, 0xd0d139c3ad84f4c3, 0xcbd1341e8eaeadea,
        0x6c89db4b59c7ca31, 0xb569fe92940ae9e5, 0x3d390603a4482576, 0x1d1deb21e4df28bc,
        0xe913cf83061139ed, 0x41fd2ec222d2c0de, 0xa577b4346f8292df, 0xe439b0f235d6c03a,
        0xa0cb41b03a7e233a, 0xb188bfb8a21d51fc, 0x0e6aa8c9d68c945f, 0xb1bd9c2281e17ab7,
        0x7d30985378eef582, 0x6ba6f4842ac008e9, 0x8e233a2ab6fa92b8, 0xa8ecbee59c5ec99d,
        0xe5a75ebbff7bb34e, 0x8c4081168f5057a8, 0xb5e06d0146a01d07, 0x338d1a4b1670fcfd,
        0x710df78d07748244, 0x91f90fe9a4927a40, 0xd77e0b168165ceb4, 0xd3287b081c902829,
        0x0927b12769d42239, 0x4bb6f6359e32243d, 0xdeaadf79e36aef35, 0x55ea473038a757ab,
        0xac7f6f49bc7e93c4, 0xa9fab1c3dd1c1fe3, 0x61d4734fe065bf1c, 0x06d9560fb7ed3362,
    ],
    [
        0x0f277af716aa7184, 0x379d534594e5c467, 0x88fb3679726ff62f, 0x0fe1bb6261b54203,
        0xe1882c77f0e8c847, 0x5a52a7a9ec1de817, 0xa486de6469b33607, 0xf05d912ec83b31ab,
        0x338f421d67424d08, 0x342afe55d39a8b92, 0x626a1b74fbe71a05, 0x3b469c2de274f571,
        0xa555d2657b9560db, 0x80fcbfafc1951cda, 0xbd03e486d80c4063, 0xf3e0a4b81ee62023,
        0x76ed6e851a1184a3, 0xb632fffd7a04ef6a, 0x7c27f250644e7c34, 0xc921141ac3076dcc,
        0xfbb0bd25facd9017, 0xb93d4ac56db0eef7, 0x493e01a0335ad2ea, 0xaf91ec6fc44b9dcf,
        0xcaa6d9f448f59934, 0xd12d3c025028bf06, 0x2f96be6496b7eff8, 0xc87c87d7f3d07e27,
        0xb28a3a87c9dab71b, 0x1846ba34af6da4b5, 0x91937c1f4cb4f2bc, 0x96a9362fa9f4b459,
        0x84222095cbe36b71, 0x3004135ad60e51e7, 0x9d1bc31d8302d484, 0xe384c7d9c27b702d,
        0x7b5a0225da3c2d8d, 0x3349b275b61e9696, 0x10731ab49473ce3b, 0xf596f3f516a1c767,
        0x28b959a01643bd29, 0x8037239411035013, 0x31630d1977113273, 0x1718ec477e53ecd7,
        0x4d91101724529ece, 0xc9a449bcdd824873, 0xab43eee2ede33023, 0xcf42e1d90bf69e83,
        0xf4121c0bf16ab37e, 0x3f399074197b7998, 0xf7d6fc341272e96b, 0x950da904d7333679,
        0xf36780baa835ee55, 0x6b58efbe0c46b0c9, 0x96971fbce83b2fe8, 0xf2f7b605bdb3a3b7,
        0xdb5e331d3c36c930, 0xc2624a07039ee8a2, 0x5474814f4cd1bdf3, 0x61dc7136d5090248,
        0x53a4eb95de32824c, 0x36adae3cc1f7f448, 0x46b0946e284009a0, 0x031ce1892640e1b3,
    ],
    [
        0xa384eecf61626cb0, 0x4fec6dbde27f8469, 0x0f7c8bff74954121, 0x58716db700ce03e3,
        0x704738d3937b0724, 0x7620e4d8fa2cb82a, 0x72ba238d0047abda, 0x1fa3e92fdacc920d,
        0x5ee6566af4ce2869, 0x28c6f1a3cb528e79, 0x2caf7e8923e29525, 0x8e799109e93ab94f,
        0x87cddba81c957ffd, 0x6fd42592d2880a42, 0x8cc81bf3c1cbcad6, 0x90b354cd7c6628c3,
        0xa6b0daae52a8b452, 0x092bbf8fd1deb1ba, 0x9c592ef32b542259, 0x32e97d8ce4fb3c5d,
        0xbcc1183d5ebc7d65, 0xe3e337e8fd0cfcdf, 0xac27f4bd959e32e6, 0x1f11b848a1637703,
        0x123091042446112d, 0x6b5fcaf91331764f, 0x41b8ee48cd456763, 0x74d656db0bb0556d,
        0xe4f59bfdc611ce87, 0x39d63704d98aacda, 0x7c130f7e790fcf03, 0x6e794603df54705d,
        0xd91148685c076ffd, 0x0722ba591c5f3e62, 0xc50bf629ef58589e, 0x161395537edd0faf,
        0x768b1450b276be70, 0x141db2fdc76bcf0c, 0xbf0fb1ea28d35b92, 0x6b93d755106c59a5,
        0x1e3fd36ebac24856, 0xa5e79c60aca31946, 0xeb0912cebbfccef4, 0x00b6e4f654b40a69,
        0x21e85699a428d83d, 0x02dc187acbcb26cd, 0x4fd3b718efcca3c0, 0xae2bb9332c4dca87,
        0x56b8076dc19310d2, 0x7ebb2dbd98284273, 0x143145083d28ee37, 0xf8b99777def9d22b,
        0x4f20a89a23ebcb4f, 0x4cfaa350ca052f19, 0x2e690517c937c307, 0xd944cda249b78d41,
        0x8b4a4742b559921b, 0x69b1fde3dbeac7ff, 0x6d86e1b5a5730db0, 0xdbb0d328fc1a87ab,
        0x0e33905e8b7e3864, 0x1fa66c6794c25d14, 0x440a8a7e19821cae, 0x92d64e9b208df317,
    ],
    [
        0x1a0c377a11b0cd31, 0xfa9793ab11d0c0eb, 0x601763ce5c8a3baa, 0x67693e9eaf72855d,
        0x7d77a2eb30089717, 0xaaff7c3cb15da3f9, 0x72744d92a6d4c6fe, 0xd0c4c9948f9110f3,
        0x20c9757ebcf06e12, 0xd1308f05e4cc4a4e, 0xe6a7394657ea815a, 0xd9340fc0f47e42d8,
        0x4aa6cdd7b2e7085d, 0x95c2896aa751710d, 0xc11112ffe93c30af, 0x0687cde8d9eb830e,
        0xb834a6caadc95788, 0x7d9ee8f92e782727, 0x3c98433fbb9bfea9, 0xa2def0a8dbee4314,
        0x84370f550c8fda92, 0x4e24e9fd3d7c21a7, 0x232140babc725024, 0xfd15442ee4923d84,
        0x26200d442b9af8ff, 0x1589adff3ff012ce, 0x6d5c59303d04816b, 0xb3edb2cae921b2a9,
        0x09dd83a5f5d27b8c, 0x661164c8fd20bc7b, 0x9d290d6f34fc83c3, 0x79b369bc91c5ea04,
        0xf04bbbcbe57c60d0, 0xc3e9e183f996ac11, 0xa53eb115045ea509, 0x2081f30119587a03,
        0x39c897e2165a2a37, 0x5264bff6e6fcf3a3, 0x6bcf031c2f718284, 0x354429c17a1d4081,
        0x4c0351dd23297a40, 0x2ed27ca00d11b8b4, 0x82748d1e53f936c5, 0xc02f86781c1bd5e8,
        0xb9606427a0ed9843, 0x06bb969e00a433b3, 0x78cfa1987df7f714, 0x2310cb5c75e75dfa,
        0x5cd90da204e6adc1, 0x52dece5ccd4830da, 0x70b73cd18cb3d63b, 0x38b9a46dc7365f57,
        0xe548413816970629, 0xd66fda1027748265, 0x27f111efee145221, 0xee2d08c49b12d2c5,
        0xae88e9004088e620, 0xd3694d3b812c7fec, 0xb9f3c4fc8aea5c13, 0xdafb88df5a3cec6b,
        0xec084f2228d8ef73, 0x407d5c948386e26d, 0xccc33d943ea6d4e9, 0x184f92d363f38300,
    ],
    [
        0x4161463901b8a406, 0x3cf138e6208e14ce, 0x55c63ca9fb1dfb67, 0xd8ec043e225bf951,
        0x77307863c20d3ae3, 0x88883b15d137f856, 0x2697c4f3cc2d4226, 0x83acbf4e2ae55122,
        0xf5a0bb6783c09300, 0x441a8e8e0acfd226, 0xa770679c576e0402, 0x7f82032845d5988a,
        0xb49363d7715f513b, 0x64969a7ae0fcc159, 0x5d6511a52f104e9b, 0xd0f04632f902a8c6,
        0x33c767a4316c5c17, 0xd218d57c6b45616f, 0xa46feb684e3c506d, 0x9765d019bca3938d,
        0x79b980ddfa9b97ea, 0xbed2511da1fc1a45, 0xf8c8cb0bc093d331, 0x2095f37fb82e18d7,
        0x7f22eff7ad8e9126, 0x667c44d8f85d0584, 0xc5f369dc43425e8f, 0x4977b172536699f2,
        0x2ff632586dda6841, 0x635788bb3f31ecd1, 0x4e631fde8e3e9b48, 0xd2c9205f0711347e,
        0x7d57f287c8f1c996, 0x891c81cfdd2a8f85, 0x782b83196e779bda, 0x774c5be7b6ecc26d,
        0x650879981bae20a9, 0x72df0410e95476a8, 0xd5698594fbc47445, 0xbda3f795367c4ded,
        0x2527e684d6d26e36, 0xfd08dee328f6876a, 0xc20d155de223f0e4, 0xa8f0ba45b30d0e05,
        0x46bfc9ec305a3559, 0x280c3b4156faf773, 0x1d40b1b448bebe5d, 0xa2c564453089f461,
        0xbdf015e3198bdfc9, 0x624d6353f2da1a36, 0x69de12cd67fbe382, 0xc84c4e371636b4c5,
        0x3259fff6b2f748ec, 0xc24a714131a71d7d, 0xaacce08261a2ac07, 0x1d6fa57b4974089f,
        0x73898a232d6b274e, 0xaaeade729011e280, 0x7a165f5a8f936145, 0x59f5904cdff2b6c7,
        0x0d602bd5e8ec026a, 0x4fc15305f9ac00ee, 0x3aba9d6d5f9ca36f, 0x5822f43eb5b4a1e9,
    ],
    [
        0xd7320b58141e92ea, 0xe0e55856db51554f, 0xf30d4c0c00514425, 0xf1059c96bb5e4fed,
        0x88c775e7d822a832, 0x954bed8309faa1e2, 0x1e60315ffd3f6c21, 0xaab0985195e83ab9,
        0x07bb488d8282648c, 0x342f4633f305c345, 0x091731d49efdb983, 0x1c6d8673bbfe4230,
        0xc02660500e3732b4, 0x7e9fb237261371d1, 0x4179a12aa45d0372, 0xed22c03c0dd325f4,
        0xa245c07b98c17ebf, 0x5674c6f4177cb382, 0xee107c8e62c4ea65, 0x872c1759e7955af1,
        0x4e349159c25aec04, 0xf126e38b0b5dd8dc, 0x76c7cfa8d9fcd46d, 0xec506ad140fd9685,
        0x4c5e89d9b6196ce8, 0x7496290266d16431, 0xa2f2fc942fb1eab9, 0x8fbb1416d89b072c,
        0x95d4da87474a7a22, 0x7a8c923698b22656, 0x425eee22b2f4179a, 0x84bc1dc27a0d5935,
        0xb347f7358b07aec7, 0x4489ac9c3496f05a, 0x4d4df0cbe13c8b3a, 0xb959748351e37cac,
        0x8fe20c9662a01155, 0x8d6be9d4ac25a437, 0x4ce0af8cbdec02bf, 0x6d21a5c07534957a,
        0x694acc99eff4e2d0, 0xb5b33816c363bf15, 0xd460006a7bbe1d2b, 0xfec2935514c94bd1,
        0x6eae2a3fbfc40d06, 0xb6476e4cb920049c, 0x920d351bafeae395, 0x0c096099d85b7312,
        0xfe11498f11bd4174, 0x03517b2e050ce6f6, 0x899ddf3b839782bb, 0x8631985927db637e,
        0x27e6d79c9b53ca38, 0x201171dec888e3ac, 0xf50a6b377982996b, 0x030214fa69c8a699,
        0x87ff94b398c9b194, 0x1d48c3287448c7f7, 0x2953cae4b91f4bb8, 0xd656feede8969b2f,
        0xa369de71fe369dd9, 0xc57e29d90e92a6a2, 0x04731bff9a2c6b6f, 0x851437b5739d0879,
    ],
];

pub const ZOBRIST_SIDE: u64 = 0x27dc5c1b2d04284b;

pub const ZOBRIST_CASTLING: [u64; 16] = [
    0xd385e9af89c56cdf, 0x9f216c8a699a31c6, 0x3021fa0135b7b425, 0x3162466448af720d,
    0x5c8319a95af10fa9, 0x82ec7576da1e27f6, 0x5a88c2d338af2639, 0x434da32cfdbad635,
    0x2f034c878d808ed9, 0x72857c8bc06b1984, 0x85b170b5f3732eb7, 0xa87cc2572bdc852a,
    0xa6938f7c8f4f36a0, 0x1b82603842d200cd, 0x924fef2ea9d6378c, 0xb3b5e193b63ff8e3,
];

pub const ZOBRIST_EP: [u64; 8] = [
    0x37ff29a902a72f06, 0xe8b3a4fcdd3960d8, 0x535eeaa50ef22419, 0x30cd262670c7e611,
    0x62fc19d56a27cd9d, 0x93f4589e3a3f4546, 0xb91a928335aaaa4c, 0x2920799bd412ec18,
];

/// The key of `piece` (1..=12) standing on `sq`.
#[verifier::opaque]
pub open spec fn piece_key(piece: int, sq: int) -> u64 {
    ZOBRIST_PIECE[piece][sq]
}

/// The key of whatever stands on a square: nothing contributes 0.
pub open spec fn square_key(piece: u8, sq: int) -> u64 {
    if piece == 0 {
        0
    } else {
        piece_key(piece as int, sq)
    }
}

#[verifier::opaque]
pub open spec fn castling_key(c: int) -> u64 {
    ZOBRIST_CASTLING[c]
}

#[verifier::opaque]
pub open spec fn ep_key(file: int) -> u64 {
    ZOBRIST_EP[file]
}

pub fn zobrist_piece(piece: u8, sq: u8) -> (k: u64)
    requires
        piece < 13,
        sq < 64,
    ensures
        k == piece_key(piece as int, sq as int),
{
    proof {
        reveal(piece_key);
    }
    ZOBRIST_PIECE[piece as usize][sq as usize]
}

pub fn zobrist_castling(c: u8) -> (k: u64)
    requires
        c < 16,
    ensures
        k == castling_key(c as int),
{
    proof {
        reveal(castling_key);
    }
    ZOBRIST_CASTLING[c as usize]
}

pub fn zobrist_ep(file: u8) -> (k: u64)
    requires
        file < 8,
    ensures
        k == ep_key(file as int),
{
    proof {
        reveal(ep_key);
    }
    ZOBRIST_EP[file as usize]
}

} // verus!
